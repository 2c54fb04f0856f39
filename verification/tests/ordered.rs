use std::collections::BTreeSet;

use maxcover::ordered::{equal_sets, is_subset, listed, set_of};

fn set(members: &[usize]) -> BTreeSet<usize> {
    members.iter().cloned().collect()
}

#[test]
fn listed_gives_the_members_in_ascending_order() {
    assert_eq!(listed(&set(&[5, 1, 4, 0])), vec![0, 1, 4, 5]);
    assert_eq!(listed(&set(&[3, 2, 1])), vec![1, 2, 3]);
    assert_eq!(listed(&set(&[7])), vec![7]);
    assert_eq!(listed(&set(&[])), Vec::<usize>::new());
}

#[test]
fn set_of_drops_repeats_and_order() {
    assert_eq!(set_of(&vec![5, 1, 4, 1, 5, 0]), set(&[0, 1, 4, 5]));
    assert_eq!(set_of(&vec![]), set(&[]));
    assert_eq!(set_of(&vec![3, 2, 1]), set_of(&vec![1, 2, 3]));
    assert_eq!(set_of(&vec![2, 2, 2]).len(), 1);
}

#[test]
fn listing_a_collected_list_sorts_it() {
    assert_eq!(listed(&set_of(&vec![9, 3, 3, 7, 0])), vec![0, 3, 7, 9]);
}

#[test]
fn is_subset_looks_at_every_member() {
    assert!(is_subset(&set(&[]), &set(&[])));
    assert!(is_subset(&set(&[]), &set(&[1])));
    assert!(is_subset(&set(&[1, 3]), &set(&[1, 2, 3])));
    assert!(is_subset(&set(&[1, 2, 3]), &set(&[1, 2, 3])));
    assert!(!is_subset(&set(&[1, 4]), &set(&[1, 2, 3])));
    assert!(!is_subset(&set(&[0]), &set(&[])));
}

#[test]
fn equal_sets_compares_the_members() {
    assert!(equal_sets(&set(&[]), &set(&[])));
    assert!(equal_sets(&set(&[1, 2, 3]), &set(&[3, 2, 1])));
    assert!(!equal_sets(&set(&[1, 2, 3]), &set(&[1, 2])));
    assert!(!equal_sets(&set(&[1, 2]), &set(&[1, 2, 3])));
    assert!(!equal_sets(&set(&[1, 2, 3]), &set(&[1, 2, 4])));
    assert!(!equal_sets(&set(&[]), &set(&[0])));
}
