use vstd::prelude::*;

verus! {

/// Strict lexicographic order on character sequences (code point by code point),
/// which is the order of their UTF-8 encodings.
pub open spec fn lex_lt(a: Seq<char>, b: Seq<char>) -> bool
    decreases a.len(),
{
    if a.len() == 0 {
        b.len() > 0
    } else if b.len() == 0 {
        false
    } else if a[0] != b[0] {
        (a[0] as int) < (b[0] as int)
    } else {
        lex_lt(a.drop_first(), b.drop_first())
    }
}

pub proof fn lemma_lex_irreflexive(a: Seq<char>)
    ensures
        !lex_lt(a, a),
    decreases a.len(),
{
    if a.len() > 0 {
        lemma_lex_irreflexive(a.drop_first());
    }
}

pub proof fn lemma_lex_total(a: Seq<char>, b: Seq<char>)
    ensures
        a == b || lex_lt(a, b) || lex_lt(b, a),
    decreases a.len(),
{
    if a.len() > 0 && b.len() > 0 && a[0] == b[0] {
        lemma_lex_total(a.drop_first(), b.drop_first());
        if a.drop_first() == b.drop_first() {
            assert(a =~= seq![a[0]] + a.drop_first());
            assert(b =~= seq![b[0]] + b.drop_first());
        }
    } else if a.len() == 0 && b.len() == 0 {
        assert(a =~= b);
    } else if a.len() > 0 && b.len() > 0 {
        assert((a[0] as int) != (b[0] as int));
    }
}

pub proof fn lemma_lex_transitive(a: Seq<char>, b: Seq<char>, c: Seq<char>)
    requires
        lex_lt(a, b),
        lex_lt(b, c),
    ensures
        lex_lt(a, c),
    decreases a.len(),
{
    if a.len() > 0 && b.len() > 0 && c.len() > 0 && a[0] == b[0] && b[0] == c[0] {
        lemma_lex_transitive(a.drop_first(), b.drop_first(), c.drop_first());
    }
}

proof fn lemma_lex_skip(a: Seq<char>, b: Seq<char>, i: int)
    requires
        0 <= i <= a.len(),
        i <= b.len(),
        a.take(i) == b.take(i),
    ensures
        lex_lt(a, b) == lex_lt(a.skip(i), b.skip(i)),
    decreases i,
{
    if i > 0 {
        assert(a[0] == a.take(i)[0]);
        assert(b[0] == b.take(i)[0]);
        assert(a.drop_first().take(i - 1) =~= a.take(i).drop_first());
        assert(b.drop_first().take(i - 1) =~= b.take(i).drop_first());
        lemma_lex_skip(a.drop_first(), b.drop_first(), i - 1);
        assert(a.drop_first().skip(i - 1) =~= a.skip(i));
        assert(b.drop_first().skip(i - 1) =~= b.skip(i));
    } else {
        assert(a.skip(0) =~= a);
        assert(b.skip(0) =~= b);
    }
}

/// Whether `a` orders strictly before `b`.
pub fn key_less(a: &str, b: &str) -> (r: bool)
    ensures
        r == lex_lt(a@, b@),
{
    let la = a.unicode_len();
    let lb = b.unicode_len();
    let mut i: usize = 0;
    while i < la && i < lb
        invariant
            la == a@.len(),
            lb == b@.len(),
            i <= la,
            i <= lb,
            a@.take(i as int) == b@.take(i as int),
        decreases la - i,
    {
        let ca = a.get_char(i);
        let cb = b.get_char(i);
        if ca != cb {
            proof {
                lemma_lex_skip(a@, b@, i as int);
                assert(a@.skip(i as int)[0] == ca);
                assert(b@.skip(i as int)[0] == cb);
            }
            return (ca as u32) < (cb as u32);
        }
        assert(a@.take(i + 1) =~= a@.take(i as int).push(ca));
        assert(b@.take(i + 1) =~= b@.take(i as int).push(cb));
        i = i + 1;
    }
    proof {
        lemma_lex_skip(a@, b@, i as int);
    }
    i < lb
}

/// The entries of a mapping as plain values: (host token, address) in order.
pub open spec fn pairs_of(v: Seq<(String, String)>) -> Seq<(Seq<char>, Seq<char>)> {
    v.map_values(|e: (String, String)| (e.0@, e.1@))
}

/// The address recorded for `k`; where a key occurs twice, the later entry counts.
pub open spec fn lookup(s: Seq<(Seq<char>, Seq<char>)>, k: Seq<char>) -> Option<Seq<char>>
    decreases s.len(),
{
    if s.len() == 0 {
        None
    } else if s.last().0 == k {
        Some(s.last().1)
    } else {
        lookup(s.drop_last(), k)
    }
}

/// Keys in strictly ascending order, hence each key once.
pub open spec fn sorted_keys(s: Seq<(Seq<char>, Seq<char>)>) -> bool {
    forall|i: int, j: int| 0 <= i < j < s.len() ==> lex_lt(#[trigger] s[i].0, #[trigger] s[j].0)
}

/// The addresses of a mapping, in key order.
pub open spec fn values_of(s: Seq<(Seq<char>, Seq<char>)>) -> Seq<Seq<char>> {
    s.map_values(|e: (Seq<char>, Seq<char>)| e.1)
}

/// Whether `fresh` holds a key whose address differs from the one in
/// `baseline`, or that `baseline` lacks. Keys only in `baseline` do not count.
pub open spec fn changed(baseline: Seq<(Seq<char>, Seq<char>)>, fresh: Seq<(Seq<char>, Seq<char>)>) -> bool {
    exists|i: int| 0 <= i < fresh.len() && lookup(baseline, #[trigger] fresh[i].0) != Some(fresh[i].1)
}


proof fn lemma_lookup_at(s: Seq<(Seq<char>, Seq<char>)>, i: int)
    requires
        sorted_keys(s),
        0 <= i < s.len(),
    ensures
        lookup(s, s[i].0) == Some(s[i].1),
    decreases s.len(),
{
    if i < s.len() - 1 {
        lemma_lex_irreflexive(s[i].0);
        assert(lex_lt(s[i].0, s[s.len() - 1].0));
        assert(sorted_keys(s.drop_last()));
        lemma_lookup_at(s.drop_last(), i);
    }
}

proof fn lemma_lookup_absent(s: Seq<(Seq<char>, Seq<char>)>, k: Seq<char>)
    requires
        forall|i: int| 0 <= i < s.len() ==> (#[trigger] s[i]).0 != k,
    ensures
        lookup(s, k) == None::<Seq<char>>,
    decreases s.len(),
{
    if s.len() > 0 {
        assert(s.last() == s[s.len() - 1]);
        assert forall|i: int| 0 <= i < s.drop_last().len() implies (#[trigger] s.drop_last()[i]).0 != k by {
            assert(s.drop_last()[i] == s[i]);
        }
        lemma_lookup_absent(s.drop_last(), k);
    }
}

/// In a mapping with each key once, the address of a key is the one beside it.
proof fn lemma_lookup_sorted(s: Seq<(Seq<char>, Seq<char>)>, k: Seq<char>)
    requires
        sorted_keys(s),
    ensures
        (exists|i: int| 0 <= i < s.len() && (#[trigger] s[i]).0 == k) ==> (exists|i: int|
            0 <= i < s.len() && (#[trigger] s[i]).0 == k && lookup(s, k) == Some(s[i].1)),
        (forall|i: int| 0 <= i < s.len() ==> (#[trigger] s[i]).0 != k) ==> lookup(s, k) == None::<
            Seq<char>,
        >,
{
    if exists|i: int| 0 <= i < s.len() && (#[trigger] s[i]).0 == k {
        let i = choose|i: int| 0 <= i < s.len() && (#[trigger] s[i]).0 == k;
        lemma_lookup_at(s, i);
    } else {
        lemma_lookup_absent(s, k);
    }
}

/// Host token to resolved address, kept sorted by host token.
pub struct Mapping {
    entries: Vec<(String, String)>,
}

impl Mapping {
    pub closed spec fn view(&self) -> Seq<(Seq<char>, Seq<char>)> {
        pairs_of(self.entries@)
    }

    pub open spec fn wf(&self) -> bool {
        sorted_keys(self@)
    }

    /// The empty mapping.
    pub fn new() -> (r: Mapping)
        ensures
            r.wf(),
            r@.len() == 0,
    {
        Mapping { entries: Vec::new() }
    }

    /// Records `ip` as the address of `host`, replacing an earlier one; the
    /// entries stay sorted by host token.
    pub fn insert(&mut self, host: String, ip: String)
        requires
            old(self).wf(),
        ensures
            final(self).wf(),
            forall|k: Seq<char>|
                #[trigger] lookup(final(self)@, k) == if k == host@ {
                    Some(ip@)
                } else {
                    lookup(old(self)@, k)
                },
    {
        let ghost old_s = self@;
        let ghost h = host@;
        let n = self.entries.len();
        let mut i: usize = 0;
        let mut go = i < n && key_less(self.entries[i].0.as_str(), host.as_str());
        proof {
            if n > 0 {
                assert(old_s[0].0 == self.entries@[0].0@);
            }
        }
        while go
            invariant
                host@ == h,
                go ==> i < n && lex_lt(old_s[i as int].0, h),
                !go ==> (i < n ==> !lex_lt(old_s[i as int].0, h)),
                n == self.entries.len(),
                self@ == old_s,
                i <= n,
                forall|j: int| 0 <= j < i ==> lex_lt(#[trigger] old_s[j].0, h),
            decreases n - i,
        {
            i = i + 1;
            go = i < n && key_less(self.entries[i].0.as_str(), host.as_str());
            proof {
                if i < n {
                    assert(old_s[i as int].0 == self.entries@[i as int].0@);
                }
            }
        }
        let e = (host, ip);
        let ghost pe = (e.0@, e.1@);
        if i < n && self.entries[i].0 == e.0 {
            self.entries.set(i, e);
            proof {
                let s = self@;
                assert(s =~= old_s.update(i as int, pe));
                assert forall|j: int| 0 <= j < s.len() implies (#[trigger] s[j]).0 == old_s[j].0 by {}
                assert forall|k: Seq<char>|
                    #[trigger] lookup(s, k) == if k == h {
                        Some(pe.1)
                    } else {
                        lookup(old_s, k)
                    } by {
                    if k == h {
                        lemma_lookup_at(s, i as int);
                    } else if exists|j: int| 0 <= j < old_s.len() && (#[trigger] old_s[j]).0 == k {
                        let j = choose|j: int| 0 <= j < old_s.len() && (#[trigger] old_s[j]).0 == k;
                        lemma_lookup_at(old_s, j);
                        lemma_lookup_at(s, j);
                    } else {
                        lemma_lookup_absent(old_s, k);
                        lemma_lookup_absent(s, k);
                    }
                }
            }
        } else {
            self.entries.insert(i, e);
            proof {
                let s = self@;
                assert(s =~= old_s.insert(i as int, pe));
                if i < n {
                    assert(!lex_lt(old_s[i as int].0, h));
                    lemma_lex_total(h, old_s[i as int].0);
                }
                assert forall|j: int| i <= j < n implies lex_lt(h, #[trigger] old_s[j].0) by {
                    if j > i {
                        lemma_lex_transitive(h, old_s[i as int].0, old_s[j].0);
                    }
                }
                assert forall|a: int, b: int| 0 <= a < b < s.len() implies lex_lt(
                    #[trigger] s[a].0,
                    #[trigger] s[b].0,
                ) by {
                    if a < i && b > i {
                        assert(lex_lt(h, old_s[b - 1].0));
                        lemma_lex_transitive(s[a].0, h, s[b].0);
                    } else if a == i {
                        assert(lex_lt(h, old_s[b - 1].0));
                    } else if a > i {
                        assert(lex_lt(old_s[a - 1].0, old_s[b - 1].0));
                    }
                }
                assert forall|k: Seq<char>|
                    #[trigger] lookup(s, k) == if k == h {
                        Some(pe.1)
                    } else {
                        lookup(old_s, k)
                    } by {
                    if k == h {
                        lemma_lookup_at(s, i as int);
                    } else if exists|j: int| 0 <= j < old_s.len() && (#[trigger] old_s[j]).0 == k {
                        let j = choose|j: int| 0 <= j < old_s.len() && (#[trigger] old_s[j]).0 == k;
                        lemma_lookup_at(old_s, j);
                        if j >= i {
                            assert(s[j + 1] == old_s[j]);
                            lemma_lookup_at(s, j + 1);
                        } else {
                            assert(s[j] == old_s[j]);
                            lemma_lookup_at(s, j);
                        }
                    } else {
                        lemma_lookup_absent(old_s, k);
                        assert forall|j: int| 0 <= j < s.len() implies (#[trigger] s[j]).0 != k by {
                            if j > i {
                                assert(s[j] == old_s[j - 1]);
                            } else if j < i {
                                assert(s[j] == old_s[j]);
                            }
                        }
                        lemma_lookup_absent(s, k);
                    }
                }
            }
        }
    }

    /// The addresses, in host token order.
    pub fn addresses(&self) -> (r: Vec<String>)
        ensures
            r@.map_values(|x: String| x@) == values_of(self@),
    {
        let mut r: Vec<String> = Vec::new();
        let n = self.entries.len();
        let mut i: usize = 0;
        while i < n
            invariant
                n == self.entries.len(),
                i <= n,
                r@.map_values(|x: String| x@) == values_of(self@).take(i as int),
            decreases n - i,
        {
            let v = self.entries[i].1.clone();
            proof {
                assert(v@ == values_of(self@)[i as int]);
            }
            let ghost before = r@;
            r.push(v);
            proof {
                assert(r@ == before.push(v));
                assert(r@.map_values(|x: String| x@) =~= before.map_values(|x: String| x@).push(v@));
                assert(values_of(self@).take(i + 1) =~= values_of(self@).take(i as int).push(v@));
            }
            i = i + 1;
        }
        assert(values_of(self@).take(n as int) =~= values_of(self@));
        r
    }

    /// The address recorded for `host`, if any.
    pub fn get(&self, host: &String) -> (r: Option<String>)
        ensures
            r.deep_view() == lookup(self@, host@),
    {
        let n = self.entries.len();
        let mut found: Option<String> = None;
        let mut i: usize = 0;
        while i < n
            invariant
                n == self.entries.len(),
                i <= n,
                found.deep_view() == lookup(self@.take(i as int), host@),
            decreases n - i,
        {
            assert(self@.take(i + 1).drop_last() =~= self@.take(i as int));
            if self.entries[i].0 == *host {
                found = Some(self.entries[i].1.clone());
            }
            i = i + 1;
        }
        assert(self@.take(n as int) =~= self@);
        found
    }

    pub fn len(&self) -> (r: usize)
        ensures
            r == self@.len(),
    {
        self.entries.len()
    }
}

} // verus!

verus! {

/// Whether `fresh` differs from `baseline` in the address of any of its own
/// host tokens; a host token that `fresh` lacks is no change.
pub fn has_changed(baseline: &Mapping, fresh: &Mapping) -> (r: bool)
    ensures
        r == changed(baseline@, fresh@),
{
    let n = fresh.entries.len();
    let mut i: usize = 0;
    while i < n
        invariant
            n == fresh.entries.len(),
            i <= n,
            forall|j: int| 0 <= j < i ==> lookup(baseline@, #[trigger] fresh@[j].0) == Some(fresh@[j].1),
        decreases n - i,
    {
        let old_ip = baseline.get(&fresh.entries[i].0);
        proof {
            assert(fresh@[i as int] == (fresh.entries@[i as int].0@, fresh.entries@[i as int].1@));
        }
        match old_ip {
            None => {
                assert(lookup(baseline@, fresh@[i as int].0) != Some(fresh@[i as int].1));
                return true;
            },
            Some(ip) => {
                if ip != fresh.entries[i].1 {
                    assert(lookup(baseline@, fresh@[i as int].0) == Some(ip@));
                    assert(lookup(baseline@, fresh@[i as int].0) != Some(fresh@[i as int].1));
                    return true;
                }
            },
        }
        i = i + 1;
    }
    false
}

/// Two well-formed mappings that hold the same (host token, address) pairs,
/// whatever their order, are never a change relative to each other.
pub proof fn lemma_same_pairs_unchanged(m1: Mapping, m2: Mapping)
    requires
        m1.wf(),
        m2.wf(),
        m1@.to_set() == m2@.to_set(),
    ensures
        !changed(m1@, m2@),
        !changed(m2@, m1@),
{
    assert forall|i: int| 0 <= i < m2@.len() implies lookup(m1@, #[trigger] m2@[i].0) == Some(
        m2@[i].1,
    ) by {
        assert(m2@.to_set().contains(m2@[i]));
        let j = choose|j: int| 0 <= j < m1@.len() && m1@[j] == m2@[i];
        lemma_lookup_at(m1@, j);
    }
    assert forall|i: int| 0 <= i < m1@.len() implies lookup(m2@, #[trigger] m1@[i].0) == Some(
        m1@[i].1,
    ) by {
        assert(m1@.to_set().contains(m1@[i]));
        let j = choose|j: int| 0 <= j < m2@.len() && m2@[j] == m1@[i];
        lemma_lookup_at(m2@, j);
    }
}

/// A host token present in both mappings with different addresses is a change.
pub proof fn lemma_differing_value_changed(baseline: Mapping, fresh: Mapping, host: Seq<char>)
    requires
        fresh.wf(),
        lookup(baseline@, host) is Some,
        lookup(fresh@, host) is Some,
        lookup(baseline@, host) != lookup(fresh@, host),
    ensures
        changed(baseline@, fresh@),
{
    lemma_lookup_sorted(fresh@, host);
    if forall|i: int| 0 <= i < fresh@.len() ==> (#[trigger] fresh@[i]).0 != host {
    } else {
        let i = choose|i: int| 0 <= i < fresh@.len() && (#[trigger] fresh@[i]).0 == host && lookup(fresh@, host) == Some(fresh@[i].1);
        assert(lookup(baseline@, fresh@[i].0) != Some(fresh@[i].1));
    }
}

} // verus!
