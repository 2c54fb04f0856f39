//! Random instances without repeated subsets.

use std::collections::BTreeSet;
use vstd::prelude::*;
use rand::ThreadRng;
use crate::error::CoverError;
use crate::instance::Instance;
use crate::ordered::{equal_sets, set_of};
use crate::random::{draw_between, sample_from};

verus! {

/// How many subsets are drawn at most to find one that is new, before
/// generation gives up.
pub const ATTEMPTS_PER_SUBSET: usize = 100_000;

/// The ground set of `n` elements: the identifiers from 0 up to `n - 1`.
pub open spec fn first_identifiers(n: nat) -> Set<usize> {
    Set::new(|e: usize| e < n)
}

/// The largest size a generated subset may have: the maximum asked for,
/// or the number of elements where none was given.
pub open spec fn size_limit(num_elements: usize, max_size: Option<usize>) -> usize {
    match max_size {
        Some(m) => m,
        None => num_elements,
    }
}

/// Whether `family` has a subset with the members of `candidate`.
pub open spec fn holds_subset(family: Seq<BTreeSet<usize>>, candidate: Set<usize>) -> bool {
    exists|i: int| 0 <= i < family.len() && (#[trigger] family[i])@ == candidate
}

/// What becomes of a subset that was drawn.
#[derive(Debug, Clone, Copy, PartialEq, Eq, Structural)]
pub enum Step {
    /// The subset was new and has been added.
    Accepted,
    /// The subset was known; another one is to be drawn.
    Retry,
    /// The subset was known and the draws allowed are used up.
    GiveUp,
}

/// The largest size a generated subset may have.
pub fn sampling_limit(num_elements: usize, max_size: Option<usize>) -> (limit: usize)
    ensures
        limit == size_limit(num_elements, max_size),
{
    match max_size {
        Some(m) => m,
        None => num_elements,
    }
}

/// The bounds between which a number is drawn to make a size of at most
/// `limit`: from 0 and below `limit`.
pub fn draw_bounds(limit: usize) -> (bounds: (usize, usize))
    ensures
        bounds.0 == 0,
        bounds.1 == limit,
{
    (0, limit)
}

/// The size that the number `drawn` below `limit` stands for: one more than
/// the number, so that the sizes run from 1 up to `limit` itself, cut down
/// to the size of the ground set where that is smaller.
pub fn subset_size(drawn: usize, limit: usize, ground_len: usize) -> (size: usize)
    requires
        drawn < limit,
    ensures
        size == if drawn + 1 <= ground_len {
            (drawn + 1) as usize
        } else {
            ground_len
        },
{
    let wanted = drawn + 1;
    if wanted <= ground_len {
        wanted
    } else {
        ground_len
    }
}

/// Draws `size` distinct members of `ground` at random and returns them as
/// a set.
pub fn sample(rng: &mut ThreadRng, ground: &BTreeSet<usize>, size: usize) -> (subset: BTreeSet<
    usize,
>)
    requires
        size <= ground@.len(),
    ensures
        subset@.len() == size,
        subset@.subset_of(ground@),
{
    let picked = sample_from(rng, ground, size);
    let subset = set_of(&picked);
    proof {
        picked@.unique_seq_to_set();
        assert forall|x: usize| subset@.contains(x) implies ground@.contains(x) by {
            let t = choose|t: int| 0 <= t < picked@.len() && picked@[t] == x;
            assert(ground@.contains(picked@[t]));
        }
    }
    subset
}

/// Tells whether `family` has a subset with the members of `candidate`.
pub fn contains_subset(family: &Vec<BTreeSet<usize>>, candidate: &BTreeSet<usize>) -> (present:
    bool)
    ensures
        present == holds_subset(family@, candidate@),
{
    let mut i: usize = 0;
    while i < family.len()
        invariant
            i <= family@.len(),
            forall|h: int| 0 <= h < i ==> (#[trigger] family@[h])@ != candidate@,
        decreases family@.len() - i,
    {
        if equal_sets(&family[i], candidate) {
            return true;
        }
        i += 1;
    }
    false
}

/// Adds `candidate` to `family` unless a subset with the same members is
/// there already, and tells whether it was added.
pub fn offer(family: &mut Vec<BTreeSet<usize>>, candidate: BTreeSet<usize>) -> (added: bool)
    ensures
        added == !holds_subset(old(family)@, candidate@),
        added ==> final(family)@ == old(family)@.push(candidate),
        !added ==> final(family)@ == old(family)@,
{
    if contains_subset(family, &candidate) {
        false
    } else {
        family.push(candidate);
        true
    }
}

/// Decides what becomes of `candidate`, drawn after `attempts` draws in a
/// row that brought nothing new.  A new subset is added to `family`.  A
/// known one is dropped; it is drawn again unless this was the last of the
/// [`ATTEMPTS_PER_SUBSET`] draws allowed.
pub fn consider(family: &mut Vec<BTreeSet<usize>>, candidate: BTreeSet<usize>, attempts: usize) -> (step:
    Step)
    requires
        attempts < ATTEMPTS_PER_SUBSET,
    ensures
        !holds_subset(old(family)@, candidate@) ==> step == Step::Accepted && final(family)@ == old(
            family,
        )@.push(candidate),
        holds_subset(old(family)@, candidate@) ==> final(family)@ == old(family)@ && step == if attempts
            + 1 < ATTEMPTS_PER_SUBSET {
            Step::Retry
        } else {
            Step::GiveUp
        },
{
    if offer(family, candidate) {
        Step::Accepted
    } else if attempts + 1 < ATTEMPTS_PER_SUBSET {
        Step::Retry
    } else {
        Step::GiveUp
    }
}

/// The set of the identifiers from 0 up to `n - 1`.
fn ground_set(n: usize) -> (ground: BTreeSet<usize>)
    ensures
        ground@ == first_identifiers(n as nat),
        ground@.len() == n,
{
    let mut ground: BTreeSet<usize> = BTreeSet::new();
    let mut e: usize = 0;
    assert(ground@ =~= first_identifiers(0));
    while e < n
        invariant
            e <= n,
            ground@ == first_identifiers(e as nat),
            ground@.finite(),
            ground@.len() == e,
        decreases n - e,
    {
        ground.insert(e);
        e += 1;
        assert(ground@ =~= first_identifiers(e as nat));
    }
    ground
}

/// Draws a number between the bounds for `limit`, takes the size it stands
/// for, and samples a subset of that size.
fn draw_subset(rng: &mut ThreadRng, ground: &BTreeSet<usize>, limit: usize) -> (subset: BTreeSet<
    usize,
>)
    requires
        1 <= limit,
        1 <= ground@.len(),
    ensures
        1 <= subset@.len() <= limit,
        subset@.subset_of(ground@),
{
    let (low, high) = draw_bounds(limit);
    let drawn = draw_between(rng, low, high);
    let size = subset_size(drawn, limit, ground.len());
    sample(rng, ground, size)
}

/// Generates an instance over the elements `0..num_elements` with
/// `num_sets` subsets, no two of them alike, each of a size drawn between 1
/// and `max_size`, or between 1 and `num_elements` where no maximum is
/// given.
///
/// Subsets are drawn until enough different ones have come up.  Whether that
/// happens is a matter of chance; when [`ATTEMPTS_PER_SUBSET`] draws in a
/// row bring nothing new, generation is given up.  It is given up at once
/// where subsets are asked for and none can be made.  A single subset is
/// always found where one can be made, since the first draw is new.
pub fn generate(num_elements: usize, num_sets: usize, max_size: Option<usize>) -> (result: Result<
    Instance,
    CoverError,
>)
    ensures
        match result {
            Ok(instance) => {
                &&& instance.wf()
                &&& instance.ground@ == first_identifiers(num_elements as nat)
                &&& instance.sets@.len() == num_sets
                &&& forall|i: int, j: int|
                    0 <= i < j < num_sets ==> (#[trigger] instance.sets@[i])@ != (
                    #[trigger] instance.sets@[j])@
                &&& forall|i: int|
                    0 <= i < num_sets ==> 1 <= (#[trigger] instance.sets@[i])@.len() <= size_limit(
                        num_elements,
                        max_size,
                    )
            },
            Err(e) => {
                &&& e == CoverError::GenerationExhausted
                &&& num_sets > 0
                &&& num_sets == 1 ==> num_elements == 0 || size_limit(num_elements, max_size) == 0
            },
        },
        num_sets == 0 ==> result is Ok,
        num_sets == 1 && num_elements >= 1 && size_limit(num_elements, max_size) >= 1
            ==> result is Ok,
        num_sets > 0 && (num_elements == 0 || size_limit(num_elements, max_size) == 0)
            ==> result is Err,
{
    let ground = ground_set(num_elements);
    let limit = sampling_limit(num_elements, max_size);
    let mut sets: Vec<BTreeSet<usize>> = Vec::new();
    if num_sets == 0 {
        return Ok(Instance { ground, sets });
    }
    if num_elements == 0 || limit == 0 {
        return Err(CoverError::GenerationExhausted);
    }
    let mut rng = rand::thread_rng();
    while sets.len() < num_sets
        invariant
            sets@.len() <= num_sets,
            0 < num_sets,
            ground@ == first_identifiers(num_elements as nat),
            ground@.len() == num_elements,
            1 <= limit,
            limit == size_limit(num_elements, max_size),
            1 <= num_elements,
            forall|i: int|
                0 <= i < sets@.len() ==> {
                    &&& 1 <= (#[trigger] sets@[i])@.len() <= limit
                    &&& sets@[i]@.subset_of(ground@)
                },
            forall|i: int, j: int|
                0 <= i < j < sets@.len() ==> (#[trigger] sets@[i])@ != (#[trigger] sets@[j])@,
        decreases num_sets - sets@.len(),
    {
        let ghost before = sets@;
        let mut attempts: usize = 0;
        let mut step = Step::Retry;
        while step == Step::Retry
            invariant
                attempts <= ATTEMPTS_PER_SUBSET,
                step == Step::Retry ==> attempts < ATTEMPTS_PER_SUBSET,
                ground@.len() == num_elements,
                1 <= limit,
                1 <= num_elements,
                attempts == 0 ==> step == Step::Retry,
                before.len() == 0 && attempts > 0 ==> step == Step::Accepted,
                step != Step::Accepted ==> sets@ == before,
                step == Step::Accepted ==> {
                    &&& sets@ == before.push(sets@.last())
                    &&& sets@.len() == before.len() + 1
                    &&& !holds_subset(before, sets@.last()@)
                    &&& 1 <= sets@.last()@.len() <= limit
                    &&& sets@.last()@.subset_of(ground@)
                },
            decreases ATTEMPTS_PER_SUBSET - attempts,
        {
            let candidate = draw_subset(&mut rng, &ground, limit);
            step = consider(&mut sets, candidate, attempts);
            attempts += 1;
        }
        if step == Step::GiveUp {
            return Err(CoverError::GenerationExhausted);
        }
        proof {
            let fresh = sets@.last();
            assert forall|i: int, j: int| 0 <= i < j < sets@.len() implies (#[trigger] sets@[i])@
                != (#[trigger] sets@[j])@ by {
                if j == sets@.len() - 1 {
                    assert(before[i] == sets@[i]);
                    assert(!holds_subset(before, fresh@));
                } else {
                    assert(before[i] == sets@[i]);
                    assert(before[j] == sets@[j]);
                }
            }
            assert forall|i: int| 0 <= i < sets@.len() implies {
                &&& 1 <= (#[trigger] sets@[i])@.len() <= limit
                &&& sets@[i]@.subset_of(ground@)
            } by {
                if i < sets@.len() - 1 {
                    assert(before[i] == sets@[i]);
                }
            }
        }
    }
    let instance = Instance { ground, sets };
    proof {
        assert forall|i: int| 0 <= i < instance.sets@.len() implies instance.subset_ok(i) by {
            assert(1 <= (#[trigger] instance.sets@[i])@.len());
        }
    }
    Ok(instance)
}

} // verus!
