use xorlist_rs::XorList;

fn items(list: &XorList<i32>) -> Vec<i32> {
    let mut iter = list.iter();
    let mut out = Vec::new();
    while let Some(x) = iter.next() {
        out.push(*x);
    }
    out
}

fn items_rev(list: &XorList<i32>) -> Vec<i32> {
    let mut iter = list.iter();
    let mut out = Vec::new();
    while let Some(x) = iter.next_back() {
        out.push(*x);
    }
    out
}

#[test]
fn from_array_preserves_order() {
    let list = XorList::from([1, 2, 3, 4]);

    assert_eq!(list.len(), 4);
    assert_eq!(items(&list), vec![1, 2, 3, 4]);
    assert_eq!(items_rev(&list), vec![4, 3, 2, 1]);

    let mut collected: XorList<i32> = XorList::new();
    for i in 1..=4 {
        collected.push_back(i);
    }
    assert!(list == collected);
}

#[test]
fn from_empty_array() {
    let mut list = XorList::from([0i32; 0]);

    assert!(list.is_empty());
    assert_eq!(list.front(), None);
    assert_eq!(list.back(), None);

    list.push_back(1);
    assert_eq!(items(&list), vec![1]);
}

#[test]
fn from_vec_preserves_order() {
    let list = XorList::from(vec![1, 2, 3, 4]);

    assert_eq!(list.len(), 4);
    assert_eq!(list.front(), Some(&1));
    assert_eq!(list.back(), Some(&4));
    assert_eq!(items(&list), vec![1, 2, 3, 4]);
    assert_eq!(items_rev(&list), vec![4, 3, 2, 1]);
}

#[test]
fn from_empty_vec() {
    let mut list: XorList<i32> = Vec::new().into();

    assert!(list.is_empty());
    assert_eq!(list.pop_front(), None);

    list.push_front(1);
    assert_eq!(items(&list), vec![1]);
}

#[test]
fn from_single_element_vec() {
    let mut list = XorList::from(vec![42]);

    assert_eq!(list.front(), list.back());
    assert_eq!(list.pop_back(), Some(42));
    assert!(list.is_empty());
}

#[test]
fn from_vec_builds_linear_slot_layout() {
    let list = XorList::from(vec![10, 20, 30]);
    assert_eq!(
        list.debug_string(false),
        "XorList(10(slot #0) <=> 20(slot #1) <=> 30(slot #2))"
    );
}

#[test]
fn from_vec_list_supports_full_mutation() {
    let mut list = XorList::from(vec![1, 2, 3, 4, 5]);

    // exercise the sentinel links at both ends
    assert_eq!(list.pop_front(), Some(1));
    assert_eq!(list.pop_back(), Some(5));
    list.push_front(0);
    list.push_back(6);
    assert_eq!(items(&list), vec![0, 2, 3, 4, 6]);

    // the pushes above reused the dirty slots left by the pops
    assert_eq!(list.pop_front(), Some(0));
    assert_eq!(items(&list), vec![2, 3, 4, 6]);
}

#[test]
fn from_vec_list_splits_and_appends() {
    let mut list = XorList::from(vec![0, 1, 2, 3, 4]);

    let mut tail = list.split_off(2);
    assert_eq!(items(&list), vec![0, 1]);
    assert_eq!(items(&tail), vec![2, 3, 4]);

    list.append(&mut tail);
    assert!(tail.is_empty());
    assert_eq!(items(&list), vec![0, 1, 2, 3, 4]);
}

#[test]
fn conversions_agree_regardless_of_slot_layout() {
    // [0, 1, 2, 3] built with its nodes deliberately out of slot order
    let mut scattered = XorList::new();
    for i in (0..3).rev() {
        scattered.push_front(i);
    }
    scattered.push_back(3);
    scattered.pop_front();
    scattered.push_front(0);

    assert!(XorList::from([0, 1, 2, 3]) == scattered);
    assert!(XorList::from(vec![0, 1, 2, 3]) == scattered);
}

#[test]
fn extend_appends_in_order() {
    let mut list = XorList::from(vec![1, 2]);
    list.extend(vec![3, 4, 5]);
    assert_eq!(items(&list), vec![1, 2, 3, 4, 5]);
    list.extend(Vec::new());
    assert_eq!(list.len(), 5);
}

#[test]
fn extend_fills_dirty_slots_before_growing_the_buffer() {
    let mut list = XorList::from(vec![0, 1, 2, 3]);
    list.pop_front();
    list.pop_back();
    assert_eq!(list.dirty(), &[0, 3]);
    list.extend(vec![7, 8, 9]);
    assert_eq!(items(&list), vec![1, 2, 7, 8, 9]);
    assert_eq!(list.slot(3), Some(&7));
    assert_eq!(list.slot(0), Some(&8));
    assert_eq!(list.slot(4), Some(&9));
    assert_eq!(list.dirty().len(), 0);
    assert_eq!(list.slot_count(), 5);
}
