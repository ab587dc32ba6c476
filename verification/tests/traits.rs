use std::cmp::Ordering;
use std::collections::hash_map::DefaultHasher;
use std::hash::{Hash, Hasher};
use xorlist_rs::XorList;

fn collect(range: std::ops::Range<i32>) -> XorList<i32> {
    XorList::from(range.collect::<Vec<i32>>())
}

fn items(list: &XorList<i32>) -> Vec<i32> {
    let mut iter = list.iter();
    let mut out = Vec::new();
    while let Some(x) = iter.next() {
        out.push(*x);
    }
    out
}

fn items_rev(list: &XorList<i32>) -> Vec<i32> {
    let mut iter = list.iter();
    let mut out = Vec::new();
    while let Some(x) = iter.next_back() {
        out.push(*x);
    }
    out
}

// Builds [0, 1, 2, 3] with its nodes deliberately out of slot order
// (0 @ slot 2, 1 @ slot 1, 2 @ slot 0, 3 @ slot 3)
fn scattered() -> XorList<i32> {
    let mut list = XorList::new();
    for i in (0..3).rev() {
        list.push_front(i);
    }
    list.push_back(3);
    list.pop_front();
    list.push_front(0);
    list
}

fn hash_of<T: Hash>(value: &T) -> u64 {
    let mut hasher = DefaultHasher::new();
    value.hash(&mut hasher);
    hasher.finish()
}

#[test]
fn equality_ignores_slot_layout() {
    let linear = collect(0..4);
    assert!(linear == scattered());

    // a list that has dirty slots still equals a clean one
    let mut popped = collect(0..5);
    popped.pop_back();
    assert!(linear == popped);

    assert!(XorList::<i32>::new() == XorList::new());
}

#[test]
fn inequality_by_length_and_by_content() {
    let list = collect(0..3);

    let longer = collect(0..4);
    assert!(list != longer);

    let differing = XorList::from([0, 1, 9]);
    assert!(list != differing);

    assert!(list != XorList::new());
}

#[test]
fn ordering_is_lexicographic() {
    let a = XorList::from([1, 2, 3]);
    let b = XorList::from([1, 2, 4]);
    let prefix = XorList::from([1, 2]);

    assert!(a < b);
    // a strict prefix sorts before the longer list
    assert!(prefix < a);
    assert_eq!(a.cmp(&a), Ordering::Equal);
    assert_eq!(b.cmp(&a), Ordering::Greater);
    assert_eq!(a.partial_cmp(&b), Some(Ordering::Less));
}

#[test]
fn partial_ordering_is_none_for_incomparable_elements() {
    let with_nan = XorList::from([1.0, f64::NAN]);
    let plain = XorList::from([1.0, 2.0]);
    assert_eq!(with_nan.partial_cmp(&plain), None);

    assert!(XorList::from([0.5]) < XorList::from([1.5]));
}

#[test]
fn hash_ignores_slot_layout() {
    let linear = collect(0..4);
    assert_eq!(hash_of(&linear), hash_of(&scattered()));

    // sanity: different contents produce a different hash with this hasher
    let shifted = collect(1..5);
    assert_ne!(hash_of(&linear), hash_of(&shifted));
}

#[test]
fn extend_accepts_copyable_references() {
    // `extend` takes the new elements by value in a `Vec`; the referenced
    // values are copied into one first.
    let mut list = collect(0..2);
    let extra = [2, 3, 4];
    list.extend(extra.to_vec());
    assert_eq!(items(&list), vec![0, 1, 2, 3, 4]);

    list.extend([5, 6].iter().copied().collect());
    assert_eq!(list.len(), 7);
    assert_eq!(items_rev(&list), vec![6, 5, 4, 3, 2, 1, 0]);
}

#[test]
fn clone_works_on_scattered_layouts() {
    let source_list = scattered();
    let mut cloned = source_list.clone();
    assert!(cloned == source_list);

    // the clone is independent and fully usable
    cloned.push_back(9);
    cloned.push_front(-1);
    assert_eq!(items(&cloned), vec![-1, 0, 1, 2, 3, 9]);
    assert_eq!(items_rev(&cloned), vec![9, 3, 2, 1, 0, -1]);
    assert_eq!(items(&source_list), vec![0, 1, 2, 3]);
}

#[test]
fn clone_from_truncates_a_longer_destination() {
    let source = collect(0..3);
    let mut dest = collect(10..17);
    dest.clone_from(&source);
    assert!(dest == source);

    // the truncated destination remains fully usable
    dest.push_back(100);
    assert_eq!(items(&dest), vec![0, 1, 2, 100]);
    assert_eq!(items_rev(&dest), vec![100, 2, 1, 0]);
}

#[test]
fn clone_from_extends_a_shorter_destination() {
    let source = collect(0..5);
    let mut dest = collect(10..12);
    dest.clone_from(&source);
    assert!(dest == source);
    assert_eq!(items_rev(&dest), vec![4, 3, 2, 1, 0]);
}

#[test]
fn clone_from_handles_equal_lengths_and_empty_lists() {
    let source = collect(0..3);

    let mut dest = collect(10..13);
    dest.clone_from(&source);
    assert!(dest == source);

    // an empty source empties the destination
    let mut dest = collect(0..3);
    dest.clone_from(&XorList::new());
    assert!(dest.is_empty());

    // an empty destination receives everything
    let mut dest = XorList::new();
    dest.clone_from(&source);
    assert!(dest == source);
}

#[test]
fn equal_lists_compare_equal_and_hash_alike() {
    let a = scattered();
    let b = collect(0..4);
    assert_eq!(a.partial_cmp(&b), Some(Ordering::Equal));
    assert_eq!(a.cmp(&b), Ordering::Equal);
    assert!(a == b);
    assert_eq!(hash_of(&a), hash_of(&b));
    assert!(XorList::<i32>::default().is_empty());
}

#[test]
fn clone_is_laid_out_in_slot_order() {
    let cloned = scattered().clone();
    assert!(cloned.is_linear());
    assert_eq!(cloned.slot(0), Some(&0));
    assert_eq!(cloned.slot(3), Some(&3));
}

#[test]
fn clone_from_keeps_the_destination_layout_it_splits_or_extends() {
    let source = collect(0..3);
    let mut dest = collect(10..17);
    dest.clone_from(&source);
    // the three kept elements were rebuilt back to front into fresh storage
    assert_eq!(dest.slot_count(), 3);
    assert_eq!(dest.head(), 2);
    assert_eq!(dest.tail(), 0);

    let source = collect(0..5);
    let mut dest = collect(10..12);
    dest.pop_front();
    dest.clone_from(&source);
    // the dirty slot is reused before the buffer grows
    assert_eq!(dest.slot(1), Some(&0));
    assert_eq!(dest.slot(0), Some(&1));
    assert_eq!(dest.slot(2), Some(&2));
    assert_eq!(dest.slot(4), Some(&4));
    assert_eq!(dest.slot_count(), 5);
}
