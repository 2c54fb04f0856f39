//! Sets of element identifiers and the order of their members.
//!
//! The sets are `BTreeSet`s.  Where the place of a member matters, a set is
//! listed in ascending order; a set has one such list.

use std::collections::BTreeSet;
use vstd::prelude::*;
use vstd::std_specs::btree::{increasing_seq, spec_btree_keys_iter};
use vstd::std_specs::cmp::OrdSpec;
use vstd::std_specs::iter::IteratorSpec;

verus! {

/// Each entry is smaller than every entry after it.
pub open spec fn strictly_ascending(s: Seq<usize>) -> bool {
    forall|i: int, j: int| 0 <= i < j < s.len() ==> s[i] < s[j]
}

/// A strictly ascending list names each of its members once.
pub proof fn lemma_ascending_no_duplicates(s: Seq<usize>)
    requires
        strictly_ascending(s),
    ensures
        s.no_duplicates(),
        s.to_set().len() == s.len(),
{
    assert forall|i: int, j: int| 0 <= i < s.len() && 0 <= j < s.len() && i != j implies s[i]
        != s[j] by {
        if i < j {
            assert(s[i] < s[j]);
        } else {
            assert(s[j] < s[i]);
        }
    }
    s.unique_seq_to_set();
}

/// Two strictly ascending lists with the same members are the same list.
pub proof fn lemma_ascending_determined_by_members(a: Seq<usize>, b: Seq<usize>)
    requires
        strictly_ascending(a),
        strictly_ascending(b),
        a.to_set() == b.to_set(),
    ensures
        a == b,
    decreases a.len(),
{
    lemma_ascending_no_duplicates(a);
    lemma_ascending_no_duplicates(b);
    assert(a.len() == b.len());
    if a.len() > 0 {
        let x = a.last();
        let y = b.last();
        assert(a.to_set().contains(x)) by {
            assert(a[a.len() - 1] == x);
        }
        assert(b.to_set().contains(y)) by {
            assert(b[b.len() - 1] == y);
        }
        assert(b.contains(x));
        assert(a.contains(y));
        let i = choose|i: int| 0 <= i < b.len() && b[i] == x;
        let j = choose|j: int| 0 <= j < a.len() && a[j] == y;
        assert(x <= y) by {
            if i < b.len() - 1 {
                assert(b[i] < b[b.len() - 1]);
            }
        }
        assert(y <= x) by {
            if j < a.len() - 1 {
                assert(a[j] < a[a.len() - 1]);
            }
        }
        let a0 = a.drop_last();
        let b0 = b.drop_last();
        assert(strictly_ascending(a0));
        assert(strictly_ascending(b0));
        assert forall|v: usize| a0.to_set().contains(v) <==> b0.to_set().contains(v) by {
            if a0.contains(v) {
                let p = choose|p: int| 0 <= p < a0.len() && a0[p] == v;
                assert(a[p] == v);
                assert(a[p] < a[a.len() - 1]);
                assert(a.to_set().contains(v));
                assert(b.contains(v));
                let q = choose|q: int| 0 <= q < b.len() && b[q] == v;
                assert(q < b.len() - 1);
                assert(b0[q] == v);
            }
            if b0.contains(v) {
                let p = choose|p: int| 0 <= p < b0.len() && b0[p] == v;
                assert(b[p] == v);
                assert(b[p] < b[b.len() - 1]);
                assert(b.to_set().contains(v));
                assert(a.contains(v));
                let q = choose|q: int| 0 <= q < a.len() && a[q] == v;
                assert(q < a.len() - 1);
                assert(a0[q] == v);
            }
        }
        assert(a0.to_set() =~= b0.to_set());
        lemma_ascending_determined_by_members(a0, b0);
        assert(a =~= a0.push(x));
        assert(b =~= b0.push(y));
    } else {
        assert(a =~= b);
    }
}

/// The members of a finite set in ascending order.
pub open spec fn ascending(set: Set<usize>) -> Seq<usize> {
    choose|list: Seq<usize>| strictly_ascending(list) && list.to_set() == set
}

/// `a` comes before `b` in the order of their type.
spec fn before<K: Ord>(a: K, b: K) -> bool {
    a.cmp_spec(&b) is Less
}

/// A `BTreeSet` is finite, and its members can be listed in ascending order
/// in one way.
pub proof fn lemma_ascending(set: &BTreeSet<usize>)
    ensures
        set@.finite(),
        strictly_ascending(ascending(set@)),
        ascending(set@).to_set() == set@,
        ascending(set@).len() == set@.len(),
{
    let handed = spec_btree_keys_iter(set).remaining();
    let list = handed.unref();
    assert(increasing_seq(handed));
    assert forall|i: int, j: int| 0 <= i < j < list.len() implies list[i] < list[j] by {
        assert(before(handed[i], handed[j]));
    }
    vstd::seq_lib::seq_to_set_is_finite(list);
    lemma_ascending_determined_by_members(list, ascending(set@));
}

/// A strictly ascending list of the members of a set is the list of them.
pub proof fn lemma_ascending_is(set: Set<usize>, list: Seq<usize>)
    requires
        strictly_ascending(list),
        list.to_set() == set,
    ensures
        list == ascending(set),
{
    lemma_ascending_determined_by_members(list, ascending(set));
}

/// Lists the members of `set` in ascending order.
pub fn listed(set: &BTreeSet<usize>) -> (list: Vec<usize>)
    ensures
        list@ == ascending(set@),
        strictly_ascending(list@),
        list@.to_set() == set@,
        list@.len() == set@.len(),
{
    let mut list: Vec<usize> = Vec::new();
    for member in it: set.iter()
        invariant
            list@.len() == it.index(),
            it.seq() == spec_btree_keys_iter(set).remaining(),
            forall|t: int| 0 <= t < list@.len() ==> list@[t] == *it.seq()[t],
    {
        list.push(*member);
    }
    proof {
        let handed = spec_btree_keys_iter(set).remaining();
        assert(list@ =~= handed.unref());
        assert(increasing_seq(handed));
        assert forall|i: int, j: int| 0 <= i < j < list@.len() implies list@[i] < list@[j] by {
            assert(before(handed[i], handed[j]));
        }
        lemma_ascending_is(set@, list@);
    }
    list
}

/// Collects the entries of `items` into a set.
pub fn set_of(items: &Vec<usize>) -> (set: BTreeSet<usize>)
    ensures
        set@ == items@.to_set(),
{
    let mut set: BTreeSet<usize> = BTreeSet::new();
    let mut i: usize = 0;
    assert(items@.take(0).to_set() =~= Set::<usize>::empty());
    while i < items.len()
        invariant
            i <= items@.len(),
            set@ == items@.take(i as int).to_set(),
        decreases items@.len() - i,
    {
        set.insert(items[i]);
        proof {
            let shorter = items@.take(i as int);
            assert(items@.take(i + 1) =~= shorter.push(items@[i as int]));
            shorter.lemma_push_to_set_commute(items@[i as int]);
        }
        i += 1;
    }
    assert(items@.take(items@.len() as int) =~= items@);
    set
}

/// Tells whether every member of `a` is a member of `b`.
pub fn is_subset(a: &BTreeSet<usize>, b: &BTreeSet<usize>) -> (included: bool)
    ensures
        included == a@.subset_of(b@),
{
    for member in it: a.iter()
        invariant
            it.seq() == spec_btree_keys_iter(a).remaining(),
            forall|t: int| 0 <= t < it.index() ==> b@.contains(*it.seq()[t]),
    {
        if !b.contains(member) {
            proof {
                let handed = spec_btree_keys_iter(a).remaining();
                assert(handed.unref()[it.index()] == *member);
                assert(handed.unref().to_set().contains(*member));
            }
            return false;
        }
    }
    proof {
        let handed = spec_btree_keys_iter(a).remaining();
        assert forall|v: usize| a@.contains(v) implies b@.contains(v) by {
            assert(handed.unref().to_set().contains(v));
            let t = choose|t: int| 0 <= t < handed.unref().len() && handed.unref()[t] == v;
            assert(b@.contains(*handed[t]));
        }
    }
    true
}

/// Tells whether two sets have the same members.
pub fn equal_sets(a: &BTreeSet<usize>, b: &BTreeSet<usize>) -> (equal: bool)
    ensures
        equal == (a@ == b@),
{
    if a.len() != b.len() {
        return false;
    }
    let included = is_subset(a, b);
    proof {
        lemma_ascending(a);
        lemma_ascending(b);
        if included {
            vstd::set_lib::lemma_subset_equality(a@, b@);
        }
    }
    included
}

} // verus!
