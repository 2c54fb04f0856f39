//! The calls into the `rand` crate.  What is stated of them here is taken
//! from that crate and is not proved.

use std::collections::BTreeSet;
use vstd::prelude::*;
use rand::distributions::{IndependentSample, Range};
use rand::ThreadRng;

verus! {

/// `rand::ThreadRng`, the handle to the random number generator of the
/// calling thread.  Nothing of its state is visible to proofs.
#[verifier::external_type_specification]
#[verifier::external_body]
pub struct ExThreadRng(rand::ThreadRng);

/// `rand::thread_rng` returns the generator of the calling thread, seeded
/// by the system.  Nothing is claimed of what it will produce.
pub assume_specification[ rand::thread_rng ]() -> (rng: rand::ThreadRng)
;

/// `Range::new(low, high)` followed by `ind_sample`: a number drawn from
/// `low..high`.  Claimed: the number is at least `low` and below `high`.
/// `Range::new` panics unless `low < high`.
#[verifier::external_body]
pub(crate) fn draw_between(rng: &mut ThreadRng, low: usize, high: usize) -> (drawn: usize)
    requires
        low < high,
    ensures
        low <= drawn < high,
{
    Range::new(low, high).ind_sample(rng)
}

/// `rand::sample`: a reservoir sample of `amount` members of `source`.
/// Claimed: as long as `source` has that many members the result has
/// exactly `amount` entries, each of them a member of `source` and no two of
/// them the same, since each comes from a place of its own in the set.  In
/// which order they come is left open.
#[verifier::external_body]
#[allow(deprecated)]
pub(crate) fn sample_from(rng: &mut ThreadRng, source: &BTreeSet<usize>, amount: usize) -> (picked:
    Vec<usize>)
    requires
        amount <= source@.len(),
    ensures
        picked@.len() == amount,
        picked@.no_duplicates(),
        forall|t: int| 0 <= t < picked@.len() ==> source@.contains(#[trigger] picked@[t]),
{
    rand::sample(rng, source.iter().cloned(), amount)
}

} // verus!
