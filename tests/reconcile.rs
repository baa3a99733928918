use dns_allowlist::directive::{
    contains_str, indent_len, is_white_char, join_addresses, join_lines, rewrite_line,
    rewrite_lines, rewrite_text, split_lines,
};
use dns_allowlist::mapping::{has_changed, key_less, Mapping};
use dns_allowlist::resolve::{fresh_mapping, plan, Plan};
use dns_allowlist::tick::Reconciler;

fn mapping_of(pairs: &[(&str, &str)]) -> Mapping {
    let mut m = Mapping::new();
    for (h, ip) in pairs {
        m.insert(h.to_string(), ip.to_string());
    }
    m
}

fn two_hosts() -> Mapping {
    mapping_of(&[("a", "10.0.0.1"), ("b", "10.0.0.2")])
}

#[test]
fn mapping_is_sorted_by_host() {
    let m = mapping_of(&[("zeta", "3.3.3.3"), ("alpha", "1.1.1.1"), ("mid", "2.2.2.2")]);
    assert_eq!(m.addresses(), vec!["1.1.1.1", "2.2.2.2", "3.3.3.3"]);
    assert_eq!(m.len(), 3);
}

#[test]
fn mapping_insert_replaces_value() {
    let m = mapping_of(&[("a", "1.1.1.1"), ("a", "2.2.2.2")]);
    assert_eq!(m.len(), 1);
    assert_eq!(m.get(&"a".to_string()), Some("2.2.2.2".to_string()));
    assert_eq!(m.get(&"b".to_string()), None);
}

#[test]
fn key_order_is_lexicographic() {
    assert!(key_less("a", "b"));
    assert!(key_less("ab", "abc"));
    assert!(!key_less("abc", "ab"));
    assert!(!key_less("same", "same"));
    assert!(key_less("", "x"));
    assert!(key_less("Z", "a"));
}

#[test]
fn same_pairs_in_other_order_is_no_change() {
    let m1 = mapping_of(&[("a", "10.0.0.1"), ("b", "10.0.0.2")]);
    let m2 = mapping_of(&[("b", "10.0.0.2"), ("a", "10.0.0.1")]);
    assert!(!has_changed(&m1, &m2));
    assert!(!has_changed(&m2, &m1));
}

#[test]
fn differing_value_is_a_change() {
    let m1 = mapping_of(&[("a", "10.0.0.1"), ("b", "10.0.0.2")]);
    let m2 = mapping_of(&[("a", "10.0.0.1"), ("b", "10.0.0.9")]);
    assert!(has_changed(&m1, &m2));
}

#[test]
fn new_key_is_a_change_and_missing_key_is_not() {
    let base = mapping_of(&[("a", "10.0.0.1")]);
    let more = mapping_of(&[("a", "10.0.0.1"), ("b", "10.0.0.2")]);
    assert!(has_changed(&base, &more));
    assert!(!has_changed(&more, &base));
    assert!(!has_changed(&base, &Mapping::new()));
}

#[test]
fn literal_addresses_stand_for_themselves() {
    match plan("8.8.8.8") {
        Plan::Literal(ip) => assert_eq!(ip, "8.8.8.8"),
        other => panic!("unexpected plan {:?}", other),
    }
    match plan("::1") {
        Plan::Literal(ip) => assert_eq!(ip, "::1"),
        other => panic!("unexpected plan {:?}", other),
    }
}

#[test]
fn names_are_looked_up() {
    match plan("vpn.example.com") {
        Plan::Lookup(name) => assert_eq!(name, "vpn.example.com"),
        other => panic!("unexpected plan {:?}", other),
    }
    match plan("8.8.8.8.9") {
        Plan::Lookup(name) => assert_eq!(name, "8.8.8.8.9"),
        other => panic!("unexpected plan {:?}", other),
    }
}

#[test]
fn overlong_label_is_unusable() {
    let token = format!("{}.com", "a".repeat(64));
    assert!(matches!(plan(&token), Plan::Unusable));
}

#[test]
fn fresh_mapping_leaves_out_failures() {
    let hosts = vec!["8.8.8.8".to_string(), "vpn.example.com".to_string()];
    let answers = vec![Some("8.8.8.8".to_string()), None];
    let m = fresh_mapping(&hosts, &answers);
    assert_eq!(m.len(), 1);
    assert_eq!(m.get(&"8.8.8.8".to_string()), Some("8.8.8.8".to_string()));
    assert_eq!(m.get(&"vpn.example.com".to_string()), None);
}

#[test]
fn fresh_mapping_later_answer_wins() {
    let hosts = vec!["h".to_string(), "h".to_string(), "h".to_string()];
    let answers = vec![Some("1.1.1.1".to_string()), Some("2.2.2.2".to_string()), None];
    let m = fresh_mapping(&hosts, &answers);
    assert_eq!(m.addresses(), vec!["2.2.2.2"]);
}

#[test]
fn first_tick_with_one_failure_rewrites_with_resolved_address() {
    let hosts = vec!["8.8.8.8".to_string(), "vpn.example.com".to_string()];
    let mut answers = Vec::new();
    for h in &hosts {
        match plan(h) {
            Plan::Literal(ip) => answers.push(Some(ip)),
            Plan::Lookup(_) => answers.push(None),
            Plan::Unusable => answers.push(None),
        }
    }
    let fresh = fresh_mapping(&hosts, &answers);
    let mut state = Reconciler::new();
    assert!(state.observe(fresh));
    assert_eq!(state.baseline().addresses(), vec!["8.8.8.8"]);
    let out = rewrite_text("  @allowedClients remote_ip 1.2.3.4\n", state.baseline());
    assert_eq!(out, Some("  @allowedClients remote_ip 8.8.8.8\n".to_string()));
}

#[test]
fn second_identical_tick_writes_nothing() {
    let mut state = Reconciler::new();
    assert!(state.observe(two_hosts()));
    assert!(!state.observe(two_hosts()));
    assert_eq!(state.baseline().addresses(), vec!["10.0.0.1", "10.0.0.2"]);
}

#[test]
fn failed_host_keeps_baseline() {
    let mut state = Reconciler::new();
    assert!(state.observe(two_hosts()));
    assert!(!state.observe(mapping_of(&[("a", "10.0.0.1")])));
    assert_eq!(state.baseline().len(), 2);
    assert!(state.observe(mapping_of(&[("a", "10.0.0.7")])));
    assert_eq!(state.baseline().addresses(), vec!["10.0.0.7"]);
}

#[test]
fn allow_line_keeps_indent() {
    let out = rewrite_line("    @allowedClients remote_ip 1.1.1.1", "10.0.0.1 10.0.0.2");
    assert_eq!(out, Some("    @allowedClients remote_ip 10.0.0.1 10.0.0.2".to_string()));
}

#[test]
fn allow_line_with_mapping_of_two_hosts() {
    let lines = vec!["\t  @allowedClients remote_ip 192.168.1.1".to_string()];
    let out = rewrite_lines(&lines, &two_hosts());
    assert_eq!(out, Some(vec!["\t  @allowedClients remote_ip 10.0.0.1 10.0.0.2".to_string()]));
}

#[test]
fn deny_line_negates_once() {
    let out = rewrite_line("\t@disallowedClients not remote_ip 9.9.9.9", "10.0.0.1 10.0.0.2");
    assert_eq!(out, Some("\t@disallowedClients not remote_ip 10.0.0.1 10.0.0.2".to_string()));
}

#[test]
fn deny_line_without_negation_gets_it() {
    let out = rewrite_line("@disallowedClients remote_ip", "1.2.3.4");
    assert_eq!(out, Some("@disallowedClients not remote_ip 1.2.3.4".to_string()));
}

#[test]
fn marker_without_anchor_is_left_alone() {
    assert_eq!(rewrite_line("@allowedClients 1.2.3.4", "5.6.7.8"), None);
    assert_eq!(rewrite_line("remote_ip 1.2.3.4", "5.6.7.8"), None);
    assert_eq!(rewrite_line("", "5.6.7.8"), None);
}

#[test]
fn allow_wins_when_both_markers_appear() {
    let out = rewrite_line("@disallowedClients @allowedClients remote_ip", "1.1.1.1");
    assert_eq!(out, Some("@allowedClients remote_ip 1.1.1.1".to_string()));
}

#[test]
fn empty_mapping_leaves_trailing_space() {
    let lines = vec!["@allowedClients remote_ip 1.1.1.1".to_string()];
    let out = rewrite_lines(&lines, &Mapping::new());
    assert_eq!(out, Some(vec!["@allowedClients remote_ip ".to_string()]));
}

#[test]
fn text_without_directives_is_not_rewritten() {
    let text = "server {\n  listen 80;\r\n}\n";
    assert_eq!(rewrite_text(text, &two_hosts()), None);
    assert_eq!(rewrite_text("", &two_hosts()), None);
}

#[test]
fn text_rewrite_keeps_other_lines() {
    let text = "site {\n    @allowedClients remote_ip 1.1.1.1\n  @disallowedClients not remote_ip 2.2.2.2\r\n}";
    let out = rewrite_text(text, &two_hosts());
    assert_eq!(
        out,
        Some(
            "site {\n    @allowedClients remote_ip 10.0.0.1 10.0.0.2\n  @disallowedClients not remote_ip 10.0.0.1 10.0.0.2\n}\n"
                .to_string()
        )
    );
}

#[test]
fn rewriting_twice_gives_the_same_text() {
    let text = " @allowedClients remote_ip\n\t@disallowedClients not remote_ip 3.3.3.3\nother\n";
    let m = two_hosts();
    let once = rewrite_text(text, &m).unwrap();
    let twice = rewrite_text(&once, &m).unwrap();
    assert_eq!(once, twice);
}

#[test]
fn split_and_join_lines() {
    assert_eq!(split_lines("a\r\nb\n\nc"), vec!["a", "b", "", "c"]);
    assert_eq!(split_lines("a\n"), vec!["a"]);
    assert_eq!(split_lines("x\r"), vec!["x\r"]);
    assert_eq!(split_lines(""), Vec::<String>::new());
    let lines = vec!["a".to_string(), "".to_string()];
    assert_eq!(join_lines(&lines), "a\n\n");
}

#[test]
fn join_addresses_by_spaces() {
    let ips = vec!["1.1.1.1".to_string(), "::1".to_string(), "2.2.2.2".to_string()];
    assert_eq!(join_addresses(&ips), "1.1.1.1 ::1 2.2.2.2");
    assert_eq!(join_addresses(&Vec::new()), "");
}

#[test]
fn white_space_and_search() {
    assert!(is_white_char(' '));
    assert!(is_white_char('\t'));
    assert!(is_white_char('\u{3000}'));
    assert!(!is_white_char('@'));
    assert_eq!(indent_len(" \t\u{a0}x y"), 3);
    assert_eq!(indent_len("   "), 3);
    assert!(contains_str("use remote_ip here", "remote_ip"));
    assert!(!contains_str("remote_i", "remote_ip"));
    assert!(contains_str("abc", ""));
}
