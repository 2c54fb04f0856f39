//! Problem instances: a ground set and a family of candidate subsets.

use std::collections::BTreeSet;
use vstd::prelude::*;
use crate::ordered::{ascending, equal_sets, is_subset};

verus! {

/// A ground set of element identifiers and the candidate subsets to choose
/// from.  The place of a subset in `sets` is the index by which models and
/// solutions refer to it.
#[derive(Debug, Clone)]
pub struct Instance {
    pub ground: BTreeSet<usize>,
    pub sets: Vec<BTreeSet<usize>>,
}

impl Instance {
    /// The ground elements in ascending order.  The place of an element in
    /// this list is the number of its variable in a model.
    pub open spec fn elements(&self) -> Seq<usize> {
        ascending(self.ground@)
    }

    /// The subset at index `i` is a non-empty part of the ground set.
    pub open spec fn subset_ok(&self, i: int) -> bool {
        &&& self.sets@[i]@.len() >= 1
        &&& self.sets@[i]@.subset_of(self.ground@)
    }

    /// The rules every instance obeys: each subset is a non-empty part of
    /// the ground set, and no two subsets have the same members.
    pub open spec fn wf(&self) -> bool {
        &&& forall|i: int| 0 <= i < self.sets@.len() ==> self.subset_ok(i)
        &&& forall|i: int, j: int|
            0 <= i < j < self.sets@.len() ==> (#[trigger] self.sets@[i])@ != (
            #[trigger] self.sets@[j])@
    }

    /// Tells whether the subset at index `i` differs from every earlier one.
    fn is_fresh(&self, i: usize) -> (fresh: bool)
        requires
            i < self.sets@.len(),
        ensures
            fresh == (forall|h: int| 0 <= h < i ==> (#[trigger] self.sets@[h])@ != self.sets@[i as int]@),
    {
        let mut h: usize = 0;
        while h < i
            invariant
                h <= i < self.sets@.len(),
                forall|g: int| 0 <= g < h ==> (#[trigger] self.sets@[g])@ != self.sets@[i as int]@,
            decreases i - h,
        {
            if equal_sets(&self.sets[h], &self.sets[i]) {
                assert(self.sets@[h as int]@ == self.sets@[i as int]@);
                return false;
            }
            h += 1;
        }
        true
    }

    /// Checks every rule of [`Instance::wf`].
    pub fn is_well_formed(&self) -> (ok: bool)
        ensures
            ok == self.wf(),
    {
        let mut i: usize = 0;
        while i < self.sets.len()
            invariant
                i <= self.sets@.len(),
                forall|h: int| 0 <= h < i ==> self.subset_ok(h),
                forall|g: int, h: int|
                    0 <= g < h < i ==> (#[trigger] self.sets@[g])@ != (#[trigger] self.sets@[h])@,
            decreases self.sets@.len() - i,
        {
            if self.sets[i].len() == 0 || !is_subset(&self.sets[i], &self.ground) {
                assert(!self.subset_ok(i as int));
                return false;
            }
            if !self.is_fresh(i) {
                return false;
            }
            i += 1;
        }
        true
    }
}

} // verus!
