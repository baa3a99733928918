use vstd::prelude::*;
use crate::mapping::{Mapping, lookup};

verus! {

/// Whether a text is a literal IPv4 or IPv6 address.
pub uninterp spec fn ip_literal(s: Seq<char>) -> bool;

/// Whether a text is accepted as an ASCII domain name.
pub uninterp spec fn dns_name(s: Seq<char>) -> bool;

/// Relies on trust_dns_resolver's `TryParseIp` for `str`, which gives a record
/// exactly when the text parses as an IP address.
#[verifier::external_body]
fn parses_as_ip(token: &str) -> (r: bool)
    ensures
        r == ip_literal(token@),
{
    trust_dns_resolver::TryParseIp::try_parse_ip(token).is_some()
}

/// Relies on trust_dns_resolver's `Name::from_ascii`, which succeeds exactly
/// when the text is a well-formed ASCII domain name.
#[verifier::external_body]
fn parses_as_name(token: &str) -> (r: bool)
    ensures
        r == dns_name(token@),
{
    trust_dns_resolver::Name::from_ascii(token).is_ok()
}

/// What to do to learn the address of a host token.
#[derive(Clone, Debug)]
pub enum Plan {
    /// The token is itself an address: use it, with no network call.
    Literal(String),
    /// Look the name up.
    Lookup(String),
    /// Neither an address nor a name: it cannot resolve.
    Unusable,
}

/// Decides how a host token is resolved: a literal IP address stands for
/// itself and never reaches the network; a domain name is looked up.
pub fn plan(token: &str) -> (r: Plan)
    ensures
        ip_literal(token@) ==> (r matches Plan::Literal(x) && x@ == token@),
        !ip_literal(token@) && dns_name(token@) ==> (r matches Plan::Lookup(x) && x@ == token@),
        !ip_literal(token@) && !dns_name(token@) ==> r is Unusable,
{
    if parses_as_ip(token) {
        Plan::Literal(String::from_str(token))
    } else if parses_as_name(token) {
        Plan::Lookup(String::from_str(token))
    } else {
        Plan::Unusable
    }
}

/// The address that the answers give to `host`: the last answered one among
/// the positions that hold `host`; a failed answer leaves an earlier one.
pub open spec fn answered(
    hosts: Seq<Seq<char>>,
    answers: Seq<Option<Seq<char>>>,
    host: Seq<char>,
) -> Option<Seq<char>>
    decreases hosts.len(),
{
    if hosts.len() == 0 || answers.len() == 0 {
        None
    } else if hosts.last() == host && answers.last() is Some {
        answers.last()
    } else {
        answered(hosts.drop_last(), answers.drop_last(), host)
    }
}

/// The mapping of one tick: each host token whose answer is `Some` maps to
/// that address; a host whose answer is `None` (it failed to resolve) is left
/// out.
pub fn fresh_mapping(hosts: &Vec<String>, answers: &Vec<Option<String>>) -> (r: Mapping)
    requires
        hosts.len() == answers.len(),
    ensures
        r.wf(),
        forall|k: Seq<char>|
            #[trigger] lookup(r@, k) == answered(
                hosts@.map_values(|x: String| x@),
                answers.deep_view(),
                k,
            ),
{
    let ghost hv = hosts@.map_values(|x: String| x@);
    let ghost av = answers.deep_view();
    let mut m = Mapping::new();
    let n = hosts.len();
    let mut i: usize = 0;
    while i < n
        invariant
            n == hosts.len(),
            n == answers.len(),
            hv == hosts@.map_values(|x: String| x@),
            av == answers.deep_view(),
            i <= n,
            m.wf(),
            forall|k: Seq<char>|
                #[trigger] lookup(m@, k) == answered(hv.take(i as int), av.take(i as int), k),
        decreases n - i,
    {
        proof {
            assert(hv.take(i + 1).drop_last() =~= hv.take(i as int));
            assert(av.take(i + 1).drop_last() =~= av.take(i as int));
            assert(hv.take(i + 1).last() == hosts@[i as int]@);
            assert(av.take(i + 1).last() == answers@[i as int].deep_view());
        }
        match &answers[i] {
            Some(ip) => {
                m.insert(hosts[i].clone(), ip.clone());
            },
            None => {},
        }
        i = i + 1;
    }
    assert(hv.take(n as int) =~= hv);
    assert(av.take(n as int) =~= av);
    m
}

} // verus!
