use vstd::prelude::*;
use crate::mapping::{Mapping, values_of};

verus! {

/// The marker of an allow-list directive.
pub open spec fn allow_marker() -> Seq<char> {
    "@allowedClients"@
}

/// The marker of a deny-list directive.
pub open spec fn deny_marker() -> Seq<char> {
    "@disallowedClients"@
}

/// The token that every directive line refers to.
pub open spec fn anchor() -> Seq<char> {
    "remote_ip"@
}

/// The separator between the parts of a rewritten directive.
pub open spec fn space() -> Seq<char> {
    " "@
}

/// What an allow-list directive line is rewritten to begin with.
pub open spec fn allow_prefix() -> Seq<char> {
    allow_marker() + space() + anchor()
}

/// What a deny-list directive line is rewritten to begin with: the negation
/// stands once, before the anchor, and the addresses follow un-negated.
pub open spec fn deny_prefix() -> Seq<char> {
    deny_marker() + space() + "not"@ + space() + anchor()
}

/// Whether `p` occurs in `s` starting at `i`.
pub open spec fn occurs_at(s: Seq<char>, p: Seq<char>, i: int) -> bool {
    0 <= i && i + p.len() <= s.len() && s.subrange(i, i + p.len()) == p
}

/// Whether `p` occurs anywhere in `s`.
pub open spec fn contains(s: Seq<char>, p: Seq<char>) -> bool {
    exists|i: int| occurs_at(s, p, i)
}

/// The two shapes of directive line.
#[derive(Clone, Copy, Debug, PartialEq, Eq, Structural)]
pub enum Directive {
    Allow,
    Deny,
}

/// The directive that a line is, if any: a line is an allow directive when it
/// holds the allow marker and the anchor, else a deny directive when it holds
/// the deny marker and the anchor.
pub open spec fn directive_of(line: Seq<char>) -> Option<Directive> {
    if contains(line, allow_marker()) && contains(line, anchor()) {
        Some(Directive::Allow)
    } else if contains(line, deny_marker()) && contains(line, anchor()) {
        Some(Directive::Deny)
    } else {
        None
    }
}

/// Unicode white space, as `char::is_whitespace` defines it.
pub open spec fn is_white(c: char) -> bool {
    c == ' ' || ('\t' <= c && c <= '\r') || c == '\u{85}' || c == '\u{a0}' || c == '\u{1680}'
        || ('\u{2000}' <= c && c <= '\u{200a}') || c == '\u{2028}' || c == '\u{2029}' || c
        == '\u{202f}' || c == '\u{205f}' || c == '\u{3000}'
}

/// The index of the first character at or after `i` that is not white space.
pub open spec fn white_run_end(s: Seq<char>, i: int) -> int
    decreases s.len() - i,
{
    if 0 <= i < s.len() && is_white(s[i]) {
        white_run_end(s, i + 1)
    } else {
        i
    }
}

/// The leading white space of a line.
pub open spec fn indent_of(s: Seq<char>) -> Seq<char> {
    s.take(white_run_end(s, 0))
}

/// Addresses joined by single spaces.
pub open spec fn joined(ips: Seq<Seq<char>>) -> Seq<char>
    decreases ips.len(),
{
    if ips.len() == 0 {
        Seq::empty()
    } else if ips.len() == 1 {
        ips[0]
    } else {
        joined(ips.drop_last()) + space() + ips.last()
    }
}

/// A line after rewriting with the address list `list`: a directive keeps its
/// indentation and gets the canonical prefix, a space and the list; any other
/// line stays as it is.
pub open spec fn rewritten(line: Seq<char>, list: Seq<char>) -> Seq<char> {
    match directive_of(line) {
        Some(Directive::Allow) => indent_of(line) + allow_prefix() + space() + list,
        Some(Directive::Deny) => indent_of(line) + deny_prefix() + space() + list,
        None => line,
    }
}

/// All lines after rewriting.
pub open spec fn rewritten_all(lines: Seq<Seq<char>>, list: Seq<char>) -> Seq<Seq<char>> {
    lines.map_values(|l: Seq<char>| rewritten(l, list))
}

/// Whether any line is a directive.
pub open spec fn any_directive(lines: Seq<Seq<char>>) -> bool {
    exists|i: int| 0 <= i < lines.len() && directive_of(#[trigger] lines[i]) is Some
}

/// The address list that the directives get from a mapping: its addresses in
/// host token order, joined by single spaces.
pub open spec fn address_list(m: Seq<(Seq<char>, Seq<char>)>) -> Seq<char> {
    joined(values_of(m))
}

pub fn is_white_char(c: char) -> (r: bool)
    ensures
        r == is_white(c),
{
    c == ' ' || ('\t' <= c && c <= '\r') || c == '\u{85}' || c == '\u{a0}' || c == '\u{1680}'
        || ('\u{2000}' <= c && c <= '\u{200a}') || c == '\u{2028}' || c == '\u{2029}' || c
        == '\u{202f}' || c == '\u{205f}' || c == '\u{3000}'
}

/// The number of white space characters that begin `s`.
pub fn indent_len(s: &str) -> (r: usize)
    ensures
        r == white_run_end(s@, 0),
        r <= s@.len(),
{
    let n = s.unicode_len();
    let mut i: usize = 0;
    while i < n && is_white_char(s.get_char(i))
        invariant
            n == s@.len(),
            i <= n,
            white_run_end(s@, 0) == white_run_end(s@, i as int),
        decreases n - i,
    {
        i = i + 1;
    }
    i
}

/// Whether `p` occurs in `s`.
pub fn contains_str(s: &str, p: &str) -> (r: bool)
    ensures
        r == contains(s@, p@),
{
    let n = s.unicode_len();
    let m = p.unicode_len();
    if m > n {
        return false;
    }
    let mut i: usize = 0;
    while i <= n - m
        invariant
            n == s@.len(),
            m == p@.len(),
            m <= n,
            i <= n - m + 1,
            forall|k: int| 0 <= k < i ==> !occurs_at(s@, p@, k),
        decreases n - m + 1 - i,
    {
        let mut j: usize = 0;
        while j < m && s.get_char(i + j) == p.get_char(j)
            invariant
                n == s@.len(),
                m == p@.len(),
                i + m <= n,
                j <= m,
                forall|k: int| 0 <= k < j ==> s@[i + k] == p@[k],
            decreases m - j,
        {
            j = j + 1;
        }
        if j == m {
            assert(s@.subrange(i as int, i + m) =~= p@);
            assert(occurs_at(s@, p@, i as int));
            return true;
        }
        assert(s@.subrange(i as int, i + m)[j as int] != p@[j as int]);
        i = i + 1;
    }
    false
}

/// Addresses joined by single spaces.
pub fn join_addresses(ips: &Vec<String>) -> (r: String)
    ensures
        r@ == joined(ips@.map_values(|x: String| x@)),
{
    let ghost v = ips@.map_values(|x: String| x@);
    let mut out = String::new();
    let n = ips.len();
    let mut i: usize = 0;
    while i < n
        invariant
            n == ips@.len(),
            v == ips@.map_values(|x: String| x@),
            i <= n,
            out@ == joined(v.take(i as int)),
        decreases n - i,
    {
        proof {
            assert(v.take(i + 1).drop_last() =~= v.take(i as int));
            assert(v.take(i + 1).last() == ips@[i as int]@);
        }
        if i > 0 {
            out.append(" ");
        }
        out.append(ips[i].as_str());
        proof {
            if i == 0 {
                assert(out@ =~= v.take(1)[0]);
            } else {
                assert(out@ =~= joined(v.take(i as int)) + space() + v[i as int]);
            }
        }
        i = i + 1;
    }
    assert(v.take(n as int) =~= v);
    out
}

/// Rewrites one line with the address list `list`: `Some` with the new line
/// where the line is a directive, `None` where it stays as it is.
pub fn rewrite_line(line: &str, list: &str) -> (r: Option<String>)
    ensures
        r is Some <==> directive_of(line@) is Some,
        r matches Some(x) ==> x@ == rewritten(line@, list@),
{
    let has_anchor = contains_str(line, "remote_ip");
    let allow = contains_str(line, "@allowedClients");
    let deny = contains_str(line, "@disallowedClients");
    if !(has_anchor && (allow || deny)) {
        return None;
    }
    let n = indent_len(line);
    let mut out = String::from_str(line.substring_char(0, n));
    if allow {
        out.append("@allowedClients");
        out.append(" ");
        out.append("remote_ip");
    } else {
        out.append("@disallowedClients");
        out.append(" ");
        out.append("not");
        out.append(" ");
        out.append("remote_ip");
    }
    out.append(" ");
    out.append(list);
    proof {
        if allow {
            assert(out@ =~= indent_of(line@) + allow_prefix() + space() + list@);
        } else {
            assert(out@ =~= indent_of(line@) + deny_prefix() + space() + list@);
        }
    }
    Some(out)
}

/// Rewrites every directive among `lines` with the addresses of `mapping`:
/// `None` where no line is a directive (nothing to write back), else all the
/// lines, directives rewritten and the others as they were.
pub fn rewrite_lines(lines: &Vec<String>, mapping: &Mapping) -> (r: Option<Vec<String>>)
    ensures
        r is Some <==> any_directive(lines@.map_values(|x: String| x@)),
        r matches Some(out) ==> out@.map_values(|x: String| x@) == rewritten_all(
            lines@.map_values(|x: String| x@),
            address_list(mapping@),
        ),
{
    let ghost src = lines@.map_values(|x: String| x@);
    let addrs = mapping.addresses();
    let list = join_addresses(&addrs);
    assert(list@ == address_list(mapping@));
    let mut out: Vec<String> = Vec::new();
    let mut any = false;
    let n = lines.len();
    let mut i: usize = 0;
    while i < n
        invariant
            n == lines@.len(),
            src == lines@.map_values(|x: String| x@),
            list@ == address_list(mapping@),
            i <= n,
            out@.map_values(|x: String| x@) == rewritten_all(src.take(i as int), list@),
            any <==> any_directive(src.take(i as int)),
        decreases n - i,
    {
        let ghost before = out@;
        let ghost line = src[i as int];
        match rewrite_line(lines[i].as_str(), list.as_str()) {
            Some(x) => {
                out.push(x);
                any = true;
            },
            None => {
                out.push(lines[i].clone());
            },
        }
        proof {
            assert(out@.map_values(|x: String| x@) =~= before.map_values(|x: String| x@).push(
                rewritten(line, list@),
            ));
            assert(src.take(i + 1) =~= src.take(i as int).push(line));
            assert(rewritten_all(src.take(i + 1), list@) =~= rewritten_all(src.take(i as int), list@).push(
                rewritten(line, list@),
            ));
            if directive_of(line) is Some {
                assert(src.take(i + 1)[i as int] == line);
            }
            if any_directive(src.take(i as int)) {
                let k = choose|k: int| 0 <= k < i && directive_of(#[trigger] src.take(i as int)[k]) is Some;
                assert(src.take(i + 1)[k] == src.take(i as int)[k]);
            }
            if any_directive(src.take(i + 1)) && directive_of(line) is None {
                let k = choose|k: int| 0 <= k < i + 1 && directive_of(#[trigger] src.take(i + 1)[k]) is Some;
                assert(src.take(i as int)[k] == src.take(i + 1)[k]);
            }
        }
        i = i + 1;
    }
    assert(src.take(n as int) =~= src);
    if any {
        Some(out)
    } else {
        None
    }
}

proof fn lemma_run_white(s: Seq<char>, i: int)
    requires
        0 <= i,
    ensures
        i <= white_run_end(s, i),
        white_run_end(s, i) <= i || white_run_end(s, i) <= s.len(),
        forall|j: int| i <= j < white_run_end(s, i) ==> is_white(#[trigger] s[j]),
    decreases s.len() - i,
{
    if 0 <= i < s.len() && is_white(s[i]) {
        lemma_run_white(s, i + 1);
    }
}

proof fn lemma_run_end_at(s: Seq<char>, i: int, k: int)
    requires
        0 <= i <= k < s.len(),
        forall|j: int| i <= j < k ==> is_white(#[trigger] s[j]),
        !is_white(s[k]),
    ensures
        white_run_end(s, i) == k,
    decreases k - i,
{
    if i < k {
        lemma_run_end_at(s, i + 1, k);
    }
}

proof fn lemma_occurs_between(a: Seq<char>, p: Seq<char>, b: Seq<char>)
    ensures
        occurs_at(a + p + b, p, a.len() as int),
{
    assert((a + p + b).subrange(a.len() as int, (a.len() + p.len()) as int) =~= p);
}

/// A rewritten directive line starts with its old indentation followed by a
/// character that is not white space, so its indentation is the old one.
proof fn lemma_indent_kept(line: Seq<char>, rest: Seq<char>)
    requires
        rest.len() > 0,
        rest[0] == '@',
    ensures
        indent_of(indent_of(line) + rest) == indent_of(line),
{
    let ind = indent_of(line);
    let s = ind + rest;
    lemma_run_white(line, 0);
    assert forall|j: int| 0 <= j < ind.len() implies is_white(#[trigger] s[j]) by {
        assert(s[j] == line[j]);
    }
    assert(s[ind.len() as int] == '@');
    lemma_run_end_at(s, 0, ind.len() as int);
    assert(s.take(ind.len() as int) =~= ind);
}

/// A rewritten deny directive holds the allow marker only where the address
/// list does.
proof fn lemma_deny_line_not_allow(ind: Seq<char>, list: Seq<char>)
    requires
        forall|j: int| 0 <= j < ind.len() ==> is_white(#[trigger] ind[j]),
        !contains(list, allow_marker()),
    ensures
        !contains(ind + deny_prefix() + space() + list, allow_marker()),
{
    reveal_strlit("@allowedClients");
    reveal_strlit("@disallowedClients");
    reveal_strlit("remote_ip");
    reveal_strlit("not");
    reveal_strlit(" ");
    let t = deny_prefix() + space();
    assert(t =~= seq![
        '@', 'd', 'i', 's', 'a', 'l', 'l', 'o', 'w', 'e', 'd', 'C', 'l', 'i', 'e', 'n', 't', 's',
        ' ', 'n', 'o', 't', ' ', 'r', 'e', 'm', 'o', 't', 'e', '_', 'i', 'p', ' ',
    ]);
    let s = ind + t + list;
    assert(ind + deny_prefix() + space() + list =~= s);
    let a = allow_marker();
    assert(a.len() == 15 && a[0] == '@' && a[1] == 'a');
    assert forall|p: int| !occurs_at(s, a, p) by {
        if occurs_at(s, a, p) {
            let q = ind.len() + t.len();
            assert(s.subrange(p, p + 15)[0] == s[p]);
            assert(s.subrange(p, p + 15)[1] == s[p + 1]);
            if p >= q {
                assert(list.subrange(p - q, p - q + 15) =~= s.subrange(p, p + 15));
                assert(occurs_at(list, a, p - q));
            } else if p < ind.len() {
                assert(s[p] == ind[p]);
            } else {
                assert(s[p] == t[p - ind.len()]);
                assert(s[p + 1] == t[p + 1 - ind.len()]);
            }
        }
    }
}

/// Rewriting lines a second time with the same address list changes nothing,
/// provided the list itself does not hold the allow marker (else a rewritten
/// deny directive would be read as an allow directive).
pub proof fn lemma_rewrite_idempotent(line: Seq<char>, list: Seq<char>)
    requires
        !contains(list, allow_marker()),
    ensures
        rewritten(rewritten(line, list), list) == rewritten(line, list),
        directive_of(rewritten(line, list)) == directive_of(line),
{
    reveal_strlit("@allowedClients");
    reveal_strlit("@disallowedClients");
    let ind = indent_of(line);
    let r = rewritten(line, list);
    match directive_of(line) {
        Some(Directive::Allow) => {
            let rest = allow_marker() + space() + anchor() + space() + list;
            assert(r =~= ind + rest);
            lemma_indent_kept(line, rest);
            assert(r =~= ind + allow_marker() + (space() + anchor() + space() + list));
            lemma_occurs_between(ind, allow_marker(), space() + anchor() + space() + list);
            assert(r =~= (ind + allow_marker() + space()) + anchor() + (space() + list));
            lemma_occurs_between(ind + allow_marker() + space(), anchor(), space() + list);
            assert(directive_of(r) == Some(Directive::Allow));
        },
        Some(Directive::Deny) => {
            let rest = deny_marker() + space() + "not"@ + space() + anchor() + space() + list;
            assert(r =~= ind + rest);
            lemma_indent_kept(line, rest);
            lemma_run_white(line, 0);
            assert forall|j: int| 0 <= j < ind.len() implies is_white(#[trigger] ind[j]) by {
                assert(ind[j] == line[j]);
            }
            lemma_deny_line_not_allow(ind, list);
            assert(r =~= ind + deny_marker() + (space() + "not"@ + space() + anchor() + space() + list));
            lemma_occurs_between(ind, deny_marker(), space() + "not"@ + space() + anchor() + space() + list);
            assert(r =~= (ind + deny_marker() + space() + "not"@ + space()) + anchor() + (space() + list));
            lemma_occurs_between(ind + deny_marker() + space() + "not"@ + space(), anchor(), space() + list);
            assert(directive_of(r) == Some(Directive::Deny));
        },
        None => {},
    }
}

/// The same law over whole files: rewriting the rewritten lines again with
/// the same mapping gives the same lines.
pub proof fn lemma_rewrite_all_idempotent(lines: Seq<Seq<char>>, m: Mapping)
    requires
        !contains(address_list(m@), allow_marker()),
    ensures
        rewritten_all(rewritten_all(lines, address_list(m@)), address_list(m@)) == rewritten_all(
            lines,
            address_list(m@),
        ),
{
    let list = address_list(m@);
    assert forall|i: int| 0 <= i < lines.len() implies #[trigger] rewritten_all(
        rewritten_all(lines, list),
        list,
    )[i] == rewritten_all(lines, list)[i] by {
        lemma_rewrite_idempotent(lines[i], list);
    }
    assert(rewritten_all(rewritten_all(lines, list), list) =~= rewritten_all(lines, list));
}

/// A line without the carriage return that may stand before its line feed.
pub open spec fn strip_cr(raw: Seq<char>, ended: bool) -> Seq<char> {
    if ended && raw.len() > 0 && raw.last() == '\r' {
        raw.drop_last()
    } else {
        raw
    }
}

/// The lines of a text, scanning at `i` with the current line begun at
/// `start`: split at each line feed, a carriage return before the line feed
/// dropped, and no empty line after a final line feed.
pub open spec fn lines_from(s: Seq<char>, start: int, i: int) -> Seq<Seq<char>>
    decreases s.len() - i,
{
    if i < 0 || start < 0 || start > i {
        Seq::empty()
    } else if i >= s.len() {
        if start < s.len() {
            seq![s.subrange(start, s.len() as int)]
        } else {
            Seq::empty()
        }
    } else if s[i] == '\n' {
        seq![strip_cr(s.subrange(start, i), true)] + lines_from(s, i + 1, i + 1)
    } else {
        lines_from(s, start, i + 1)
    }
}

/// The lines of a text.
pub open spec fn lines_of(s: Seq<char>) -> Seq<Seq<char>> {
    lines_from(s, 0, 0)
}

/// Lines written out, each followed by one line feed.
pub open spec fn render(lines: Seq<Seq<char>>) -> Seq<char>
    decreases lines.len(),
{
    if lines.len() == 0 {
        Seq::empty()
    } else {
        render(lines.drop_last()) + lines.last() + seq!['\n']
    }
}

/// Splits a text into its lines.
pub fn split_lines(text: &str) -> (r: Vec<String>)
    ensures
        r@.map_values(|x: String| x@) == lines_of(text@),
{
    let ghost s = text@;
    let n = text.unicode_len();
    let mut out: Vec<String> = Vec::new();
    let mut start: usize = 0;
    let mut i: usize = 0;
    while i < n
        invariant
            n == s.len(),
            s == text@,
            start <= i <= n,
            out@.map_values(|x: String| x@) + lines_from(s, start as int, i as int) == lines_of(s),
        decreases n - i,
    {
        if text.get_char(i) == '\n' {
            let ghost before = out@;
            let piece = text.substring_char(start, i);
            let line = if i > start && text.get_char(i - 1) == '\r' {
                piece.substring_char(0, i - start - 1)
            } else {
                piece
            };
            out.push(String::from_str(line));
            proof {
                assert(line@ == strip_cr(s.subrange(start as int, i as int), true));
                assert(lines_from(s, start as int, i as int) == seq![line@] + lines_from(
                    s,
                    i + 1,
                    i + 1,
                ));
                assert(out@.map_values(|x: String| x@) =~= before.map_values(|x: String| x@).push(line@));
                assert(out@.map_values(|x: String| x@) + lines_from(s, i + 1, i + 1) =~= before.map_values(
                    |x: String| x@,
                ) + lines_from(s, start as int, i as int));
            }
            start = i + 1;
        }
        i = i + 1;
    }
    if start < n {
        let ghost before = out@;
        let line = text.substring_char(start, n);
        out.push(String::from_str(line));
        proof {
            assert(out@.map_values(|x: String| x@) =~= before.map_values(|x: String| x@).push(line@));
        }
    }
    assert(out@.map_values(|x: String| x@) =~= lines_of(s));
    out
}

/// Writes lines out, each followed by one line feed.
pub fn join_lines(lines: &Vec<String>) -> (r: String)
    ensures
        r@ == render(lines@.map_values(|x: String| x@)),
{
    let ghost v = lines@.map_values(|x: String| x@);
    let mut out = String::new();
    let n = lines.len();
    let mut i: usize = 0;
    while i < n
        invariant
            n == lines@.len(),
            v == lines@.map_values(|x: String| x@),
            i <= n,
            out@ == render(v.take(i as int)),
        decreases n - i,
    {
        proof {
            assert(v.take(i + 1).drop_last() =~= v.take(i as int));
            assert(v.take(i + 1).last() == lines@[i as int]@);
        }
        out.append(lines[i].as_str());
        out.append("\n");
        proof {
            reveal_strlit("\n");
            assert(out@ =~= render(v.take(i as int)) + v[i as int] + seq!['\n']);
        }
        i = i + 1;
    }
    assert(v.take(n as int) =~= v);
    out
}

/// Rewrites the directives of a whole text with the addresses of `mapping`:
/// `None` where the text holds no directive, so that nothing is written back;
/// else the new text, one line feed after each line.
pub fn rewrite_text(text: &str, mapping: &Mapping) -> (r: Option<String>)
    ensures
        r is Some <==> any_directive(lines_of(text@)),
        r matches Some(x) ==> x@ == render(rewritten_all(lines_of(text@), address_list(mapping@))),
{
    let lines = split_lines(text);
    match rewrite_lines(&lines, mapping) {
        Some(out) => Some(join_lines(&out)),
        None => None,
    }
}

proof fn lemma_render_concat(a: Seq<Seq<char>>, b: Seq<Seq<char>>)
    ensures
        render(a + b) == render(a) + render(b),
    decreases b.len(),
{
    if b.len() == 0 {
        assert(a + b =~= a);
        assert(render(a) + render(b) =~= render(a));
    } else {
        assert((a + b).drop_last() =~= a + b.drop_last());
        lemma_render_concat(a, b.drop_last());
        assert(render(a) + render(b) =~= render(a) + render(b.drop_last()) + b.last() + seq!['\n']);
    }
}

proof fn lemma_scan_line(s: Seq<char>, start: int, i: int, j: int)
    requires
        0 <= start <= i <= j <= s.len(),
        forall|k: int| i <= k < j ==> s[k] != '\n',
    ensures
        lines_from(s, start, i) == lines_from(s, start, j),
    decreases j - i,
{
    if i < j {
        lemma_scan_line(s, start, i + 1, j);
    }
}

/// Whether a line reads back as itself once written out: it holds no line
/// feed and does not end in a carriage return.
pub open spec fn plain_line(l: Seq<char>) -> bool {
    (forall|k: int| 0 <= k < l.len() ==> l[k] != '\n') && !(l.len() > 0 && l.last() == '\r')
}

proof fn lemma_lines_of_render_from(lines: Seq<Seq<char>>, k: int)
    requires
        0 <= k <= lines.len(),
        forall|i: int| 0 <= i < lines.len() ==> plain_line(#[trigger] lines[i]),
    ensures
        lines_from(
            render(lines),
            render(lines.take(k)).len() as int,
            render(lines.take(k)).len() as int,
        ) == lines.skip(k),
    decreases lines.len() - k,
{
    let s = render(lines);
    lemma_render_concat(lines.take(k), lines.skip(k));
    assert(lines.take(k) + lines.skip(k) =~= lines);
    let off = render(lines.take(k)).len() as int;
    if k == lines.len() {
        assert(lines.skip(k) =~= Seq::<Seq<char>>::empty());
        assert(render(lines.skip(k)) =~= Seq::<char>::empty());
    } else {
        let l = lines[k];
        assert(lines.take(k + 1).drop_last() =~= lines.take(k));
        assert(render(lines.take(k + 1)) == render(lines.take(k)) + l + seq!['\n']);
        lemma_render_concat(lines.take(k + 1), lines.skip(k + 1));
        assert(lines.take(k + 1) + lines.skip(k + 1) =~= lines);
        assert(s =~= render(lines.take(k)) + l + seq!['\n'] + render(lines.skip(k + 1)));
        assert forall|j: int| off <= j < off + l.len() implies s[j] != '\n' by {
            assert(s[j] == l[j - off]);
        }
        lemma_scan_line(s, off, off, off + l.len());
        assert(s[off + l.len()] == '\n');
        assert(s.subrange(off, off + l.len()) =~= l);
        lemma_lines_of_render_from(lines, k + 1);
        assert(lines.skip(k) =~= seq![l] + lines.skip(k + 1));
    }
}

/// Lines that read back as themselves are read back unchanged from their
/// written form.
pub proof fn lemma_lines_of_render(lines: Seq<Seq<char>>)
    requires
        forall|i: int| 0 <= i < lines.len() ==> plain_line(#[trigger] lines[i]),
    ensures
        lines_of(render(lines)) == lines,
{
    lemma_lines_of_render_from(lines, 0);
    assert(lines.take(0) =~= Seq::<Seq<char>>::empty());
    assert(lines.skip(0) =~= lines);
}

/// Rewriting a whole text a second time with the same mapping gives the same
/// text again, provided the address list holds no allow marker and every line
/// of the first result reads back as itself (no line ends in a carriage
/// return that the line feed would then swallow).
pub proof fn lemma_rewrite_text_idempotent(text: Seq<char>, m: Mapping)
    requires
        !contains(address_list(m@), allow_marker()),
        forall|i: int|
            0 <= i < rewritten_all(lines_of(text), address_list(m@)).len() ==> plain_line(
                #[trigger] rewritten_all(lines_of(text), address_list(m@))[i],
            ),
    ensures
        any_directive(lines_of(render(rewritten_all(lines_of(text), address_list(m@)))))
            == any_directive(lines_of(text)),
        render(
            rewritten_all(
                lines_of(render(rewritten_all(lines_of(text), address_list(m@)))),
                address_list(m@),
            ),
        ) == render(rewritten_all(lines_of(text), address_list(m@))),
{
    let list = address_list(m@);
    let src = lines_of(text);
    let once = rewritten_all(src, list);
    lemma_lines_of_render(once);
    lemma_rewrite_all_idempotent(src, m);
    assert forall|i: int| 0 <= i < src.len() implies directive_of(#[trigger] once[i]) == directive_of(
        src[i],
    ) by {
        lemma_rewrite_idempotent(src[i], list);
    }
    if any_directive(src) {
        let i = choose|i: int| 0 <= i < src.len() && directive_of(#[trigger] src[i]) is Some;
        assert(directive_of(once[i]) is Some);
    }
    if any_directive(once) {
        let i = choose|i: int| 0 <= i < once.len() && directive_of(#[trigger] once[i]) is Some;
        assert(directive_of(src[i]) is Some);
    }
}

} // verus!
