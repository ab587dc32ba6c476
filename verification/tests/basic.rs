use xorlist_rs::{XorList, NIL};

fn items(list: &XorList<i32>) -> Vec<i32> {
    let mut iter = list.iter();
    let mut out = Vec::new();
    while let Some(x) = iter.next() {
        out.push(*x);
    }
    out
}

#[test]
fn push_front_works() {
    let mut list = XorList::new();
    list.push_front(1337i32);

    assert_eq!(list.head(), 0);
    assert_eq!(list.tail(), 0);
    assert_eq!(list.dirty().len(), 0);
    assert_eq!(list.slot_count(), 1);

    assert_eq!(list.slot(0), Some(&1337));
    assert_eq!(list.link_of(0), 0);

    list.push_front(420i32);
    assert_eq!(list.head(), 1);
    assert_eq!(list.tail(), 0);
    assert_eq!(list.dirty().len(), 0);
    assert_eq!(list.slot_count(), 2);

    let last = list.slot_count() - 1;
    assert_eq!(list.slot(last), Some(&420));
    assert_eq!(list.link_of(last), XorList::<i32>::compute_npx(1, 0, usize::MAX));
    assert_eq!(list.slot(last), list.front());
}

#[test]
fn pop_front_works() {
    let mut list = XorList::new();
    let removed = list.pop_front();

    assert!(matches!(removed, None));
    assert_eq!(list.head(), usize::MAX);
    assert_eq!(list.tail(), usize::MAX);
    assert_eq!(list.dirty(), &[] as &[usize]);
    assert_eq!(list.slot_count(), 0);

    list.push_front(1337i32);
    let removed = list.pop_front();

    assert!(matches!(removed, Some(1337)));
    assert_eq!(list.head(), usize::MAX);
    assert_eq!(list.tail(), usize::MAX);
    assert_eq!(list.dirty(), &[0]);
    assert_eq!(list.slot_count(), 1);
    assert_eq!(list.len(), 0);

    assert!(matches!(list.slot(0), None));
}

#[test]
fn push_front_reuses_dirty_nodes() {
    let mut list = XorList::new();
    list.push_front(1i32);
    list.push_front(2);
    let removed1 = list.pop_front();
    let removed2 = list.pop_front();

    assert!(matches!(removed1, Some(2)));
    assert!(matches!(removed2, Some(1)));
    assert_eq!(list.head(), usize::MAX);
    assert_eq!(list.tail(), usize::MAX);
    assert_eq!(list.dirty(), &[1, 0]);
    assert_eq!(list.slot_count(), 2);
    assert_eq!(list.len(), 0);

    list.push_front(3);

    assert_eq!(list.head(), 0);
    assert_eq!(list.tail(), 0);
    assert_eq!(list.dirty(), &[1]);
    assert_eq!(list.slot_count(), 2);
    assert_eq!(list.len(), 1);
}

#[test]
fn push_back_works() {
    let mut list = XorList::new();
    list.push_back(1337i32);

    assert_eq!(list.head(), 0);
    assert_eq!(list.tail(), 0);
    assert_eq!(list.dirty().len(), 0);
    assert_eq!(list.slot_count(), 1);

    list.push_back(420i32);
    assert_eq!(list.head(), 0);
    assert_eq!(list.tail(), 1);
    assert_eq!(list.dirty().len(), 0);
    assert_eq!(list.slot_count(), 2);

    let last = list.slot_count() - 1;
    assert_eq!(list.slot(last), Some(&420));
    assert_eq!(list.link_of(last), XorList::<i32>::compute_npx(1, 0, usize::MAX));
    assert_eq!(list.slot(last), list.back());
}

#[test]
fn pop_back_works() {
    let mut list = XorList::new();
    let removed = list.pop_back();

    assert!(matches!(removed, None));
    assert_eq!(list.head(), usize::MAX);
    assert_eq!(list.tail(), usize::MAX);

    list.push_back(1i32);
    list.push_back(2);
    list.push_back(3);

    assert!(matches!(list.pop_back(), Some(3)));
    assert!(matches!(list.pop_back(), Some(2)));
    assert!(matches!(list.pop_back(), Some(1)));
    assert!(matches!(list.pop_back(), None));
    assert_eq!(list.head(), usize::MAX);
    assert_eq!(list.tail(), usize::MAX);
    assert_eq!(list.len(), 0);
    assert_eq!(list.dirty(), &[2, 1, 0]);
}

#[test]
fn push_back_reuses_dirty_nodes() {
    let mut list = XorList::new();
    list.push_back(1i32);
    list.push_back(2);
    list.pop_back();
    list.pop_back();

    assert_eq!(list.dirty(), &[1, 0]);

    list.push_back(3);

    assert_eq!(list.dirty(), &[1]);
    assert_eq!(list.slot_count(), 2);
    assert_eq!(list.len(), 1);
    assert_eq!(list.front(), Some(&3));
    assert_eq!(list.back(), Some(&3));
}

#[test]
fn front_and_back_work() {
    let mut list = XorList::new();
    assert!(matches!(list.front(), None));
    assert!(matches!(list.back(), None));
    assert!(matches!(list.front_mut(), None));
    assert!(matches!(list.back_mut(), None));

    list.push_back(1i32);
    assert_eq!(list.front(), Some(&1));
    assert_eq!(list.back(), Some(&1));

    list.push_back(2);
    list.push_front(0);
    assert_eq!(list.front(), Some(&0));
    assert_eq!(list.back(), Some(&2));

    *list.front_mut().unwrap() = 100;
    *list.back_mut().unwrap() = 200;
    assert_eq!(list.front(), Some(&100));
    assert_eq!(list.back(), Some(&200));
}

#[test]
fn len_and_is_empty_work() {
    let mut list = XorList::new();
    assert!(list.is_empty());
    assert_eq!(list.len(), 0);

    list.push_back(1i32);
    list.push_back(2);
    assert!(!list.is_empty());
    assert_eq!(list.len(), 2);

    list.pop_front();
    assert_eq!(list.len(), 1);
    list.pop_front();
    assert!(list.is_empty());
    assert_eq!(list.len(), 0);
}

#[test]
fn clear_works() {
    let mut list = XorList::new();
    list.push_back(1i32);
    list.push_back(2);
    list.push_back(3);

    list.clear();

    assert!(list.is_empty());
    assert_eq!(list.len(), 0);
    assert!(matches!(list.front(), None));
    assert!(matches!(list.back(), None));
    assert!(matches!(list.iter().next(), None));

    // All slots are reusable after a clear
    list.push_back(4);
    list.push_back(5);
    assert_eq!(items(&list), vec![4, 5]);
    assert_eq!(list.slot_count(), 3);
}

#[test]
fn contains_works() {
    let mut list = XorList::new();
    assert!(!list.contains(&1i32));

    list.push_back(1i32);
    list.push_back(2);
    list.push_back(3);

    assert!(list.contains(&1));
    assert!(list.contains(&3));
    assert!(!list.contains(&4));

    list.pop_back();
    assert!(!list.contains(&3));
}

#[test]
fn push_mut_returns_usable_reference() {
    let mut list = XorList::new();

    let (_, front) = list.push_front_mut(1i32);
    *front += 10;
    let (_, back) = list.push_back_mut(2);
    *back += 20;
    let (_, front) = list.push_front_mut(3);
    *front += 30;

    assert_eq!(items(&list), vec![33, 11, 22]);
}

#[test]
fn mixed_pushes_and_pops_preserve_order() {
    let mut list = XorList::new();
    list.push_back(2i32);
    list.push_front(1);
    list.push_back(3);
    list.push_front(0);

    assert_eq!(items(&list), vec![0, 1, 2, 3]);

    assert!(matches!(list.pop_front(), Some(0)));
    assert!(matches!(list.pop_back(), Some(3)));
    assert_eq!(items(&list), vec![1, 2]);

    list.push_back(4);
    list.push_front(5);
    assert_eq!(items(&list), vec![5, 1, 2, 4]);
    assert_eq!(list.len(), 4);
}

#[test]
fn emptied_list_is_reusable() {
    let mut list = XorList::new();
    list.push_back(1i32);
    list.push_back(2);
    assert!(matches!(list.pop_front(), Some(1)));
    assert!(matches!(list.pop_back(), Some(2)));

    assert!(list.is_empty());
    assert!(matches!(list.iter().next(), None));
    assert!(matches!(list.front(), None));
    assert!(matches!(list.back(), None));

    list.push_front(3);
    list.push_back(4);
    assert_eq!(items(&list), vec![3, 4]);
    // The two dirty slots must have been reused instead of growing the
    // backing storage
    assert_eq!(list.slot_count(), 2);
    assert_eq!(list.dirty().len(), 0);
}

#[test]
fn nil_is_the_empty_slot() {
    let list: XorList<i32> = XorList::new();
    assert_eq!(NIL, usize::MAX);
    assert_eq!(list.head(), NIL);
    assert_eq!(list.tail(), NIL);
}

#[test]
fn debug_formatting_works() {
    let mut list = XorList::new();
    list.push_front(1337i32);
    list.push_front(420);
    list.push_back(42);

    assert_eq!(
        &list.debug_string(false),
        "XorList(420(slot #1) <=> 1337(slot #0) <=> 42(slot #2))"
    );

    assert_eq!(
        &list.debug_string(true),
        "\
XorList(
    420(slot #1)
    <=> 1337(slot #0)
    <=> 42(slot #2)
)\
        ",
    );
}

#[test]
fn debug_formatting_of_empty_lists_and_large_slots() {
    let list: XorList<i32> = XorList::new();
    assert_eq!(&list.debug_string(false), "XorList()");
    assert_eq!(&list.debug_string(true), "XorList()");

    let mut list = XorList::new();
    for i in 0..12i32 {
        list.push_back(i);
    }
    for _ in 0..11 {
        list.pop_front();
    }
    assert_eq!(&list.debug_string(false), "XorList(11(slot #11))");

    let words = XorList::from(vec!["a\nb"]);
    assert_eq!(&words.debug_string(false), "XorList(\"a\\nb\"(slot #0))");
}

#[test]
fn clear_then_push_reuses_the_most_recently_allocated_slot() {
    let mut list = XorList::from(vec![1, 2, 3]);
    list.clear();
    assert_eq!(list.dirty(), &[0, 1, 2]);
    assert_eq!(list.push_back(10), 2);
    assert_eq!(list.push_front(20), 1);
    assert_eq!(list.slot_count(), 3);
    assert_eq!(items(&list), vec![20, 10]);
}

#[test]
fn push_back_and_pop_front_make_a_queue() {
    let mut list = XorList::new();
    for i in 0..4i32 {
        list.push_back(i);
    }
    for i in 0..4i32 {
        assert_eq!(list.pop_front(), Some(i));
        list.push_back(i + 10);
    }
    assert_eq!(items(&list), vec![10, 11, 12, 13]);
}

#[test]
fn pop_front_undoes_push_front() {
    let mut list = XorList::from(vec![5, 6]);
    let slot = list.push_front(4);
    assert_eq!(slot, 2);
    assert_eq!(list.pop_front(), Some(4));
    assert_eq!(items(&list), vec![5, 6]);
    assert_eq!(list.head(), 0);
    assert_eq!(list.dirty(), &[2]);
    assert_eq!(list.slot(2), None);
}
