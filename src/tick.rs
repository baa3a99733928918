use vstd::prelude::*;
use crate::mapping::{Mapping, changed, has_changed, lemma_same_pairs_unchanged, lookup};

verus! {

/// The baseline after a tick that saw `fresh`: replaced wholesale on a
/// change, kept otherwise.
pub open spec fn next_baseline(
    baseline: Seq<(Seq<char>, Seq<char>)>,
    fresh: Seq<(Seq<char>, Seq<char>)>,
) -> Seq<(Seq<char>, Seq<char>)> {
    if changed(baseline, fresh) {
        fresh
    } else {
        baseline
    }
}

/// The state carried from one tick to the next: the mapping that the files
/// were last rewritten with.
pub struct Reconciler {
    baseline: Mapping,
}

impl Reconciler {
    pub closed spec fn view(&self) -> Seq<(Seq<char>, Seq<char>)> {
        self.baseline@
    }

    pub closed spec fn wf(&self) -> bool {
        self.baseline.wf()
    }

    /// The state before the first tick: an empty baseline.
    pub fn new() -> (r: Reconciler)
        ensures
            r.wf(),
            r@.len() == 0,
    {
        Reconciler { baseline: Mapping::new() }
    }

    /// The mapping that the files were last rewritten with.
    pub fn baseline(&self) -> (r: &Mapping)
        ensures
            r@ == self@,
    {
        &self.baseline
    }

    /// Takes the mapping that a tick resolved. Returns whether the files must
    /// be rewritten with it; if so it becomes the baseline.
    pub fn observe(&mut self, fresh: Mapping) -> (rewrite: bool)
        requires
            old(self).wf(),
            fresh.wf(),
        ensures
            final(self).wf(),
            rewrite == changed(old(self)@, fresh@),
            final(self)@ == next_baseline(old(self)@, fresh@),
    {
        let rewrite = has_changed(&self.baseline, &fresh);
        if rewrite {
            self.baseline = fresh;
        }
        rewrite
    }
}

/// Two ticks in a row that resolve the same pairs: the second asks for no
/// rewrite, whatever the baseline before the first.
pub proof fn lemma_second_tick_quiet(state: Reconciler, first: Mapping, second: Mapping)
    requires
        state.wf(),
        first.wf(),
        second.wf(),
        first@.to_set() == second@.to_set(),
    ensures
        !changed(next_baseline(state@, first@), second@),
{
    lemma_same_pairs_unchanged(first, second);
    if !changed(state@, first@) {
        assert forall|i: int| 0 <= i < second@.len() implies lookup(
            state@,
            #[trigger] second@[i].0,
        ) == Some(second@[i].1) by {
            assert(first@.to_set().contains(second@[i]));
            let j = choose|j: int| 0 <= j < first@.len() && first@[j] == second@[i];
            assert(lookup(state@, first@[j].0) == Some(first@[j].1));
        }
    }
}

} // verus!
