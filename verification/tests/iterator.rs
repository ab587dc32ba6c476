use xorlist_rs::{IntoIter, XorList};

fn collect(range: std::ops::Range<i32>) -> XorList<i32> {
    XorList::from(range.collect::<Vec<i32>>())
}

fn drain_owned(mut iter: IntoIter<i32>) -> Vec<i32> {
    let mut out = Vec::new();
    while let Some(x) = iter.next() {
        out.push(x);
    }
    out
}

#[test]
fn iterator_works() {
    let mut list = XorList::new();
    list.push_front(3i32);
    list.push_front(2);
    list.push_front(1);

    let mut iter = list.iter();
    let mut idx = 0;
    while let Some(&val) = iter.next() {
        if idx == 0 {
            assert_eq!(val, 1);
        } else if idx == 1 {
            assert_eq!(val, 2);
        } else if idx == 2 {
            assert_eq!(val, 3);
        }
        idx += 1;
    }

    let mut iter = list.iter_mut();
    while let Some(val) = iter.next() {
        *val += 100;
    }

    let mut iter = list.iter();
    let mut idx = 0;
    while let Some(&val) = iter.next() {
        if idx == 0 {
            assert_eq!(val, 101);
        } else if idx == 1 {
            assert_eq!(val, 102);
        } else if idx == 2 {
            assert_eq!(val, 103);
        }
        idx += 1;
    }
}

#[test]
fn iterator_does_not_overlap_with_reversed_iterator() {
    let mut list = XorList::new();
    list.push_front(1i32);
    list.push_back(2);
    list.push_back(3);
    list.push_back(4);

    let mut iter = list.iter();
    assert!(matches!(iter.next(), Some(&1)));
    assert!(matches!(iter.next(), Some(&2)));

    assert!(matches!(iter.next_back(), Some(&4)));
    assert!(matches!(iter.next_back(), Some(&3)));
    assert!(matches!(iter.next_back(), None));
}

#[test]
fn reverse_iterator_works() {
    let list = collect(0..5);

    let mut iter = list.iter();
    let mut out = Vec::new();
    while let Some(&x) = iter.next_back() {
        out.push(x);
    }
    assert_eq!(out, vec![4, 3, 2, 1, 0]);
}

#[test]
fn mut_iterator_does_not_overlap_with_reversed_iterator() {
    let mut list = XorList::new();
    for i in 1..=4i32 {
        list.push_back(i);
    }

    let mut iter = list.iter_mut();
    assert!(matches!(iter.next(), Some(&mut 1)));
    assert!(matches!(iter.next(), Some(&mut 2)));

    assert!(matches!(iter.next_back(), Some(&mut 4)));
    assert!(matches!(iter.next_back(), Some(&mut 3)));
    assert!(matches!(iter.next_back(), None));
}

#[test]
fn size_hint_shrinks_from_both_ends() {
    let list = collect(0..5);

    let mut iter = list.iter();
    assert_eq!(iter.len(), 5);
    iter.next();
    assert_eq!(iter.len(), 4);
    iter.next_back();
    assert_eq!(iter.len(), 3);
    iter.next_back();
    assert_eq!(iter.len(), 2);
    iter.next();
    assert_eq!(iter.len(), 1);
    iter.next();
    assert_eq!(iter.len(), 0);
    assert!(matches!(iter.next(), None));
    assert_eq!(iter.len(), 0);

    // A purely reversed iterator must also report a shrinking length
    let mut rev = list.iter();
    assert_eq!(rev.len(), 5);
    rev.next_back();
    rev.next_back();
    assert_eq!(rev.len(), 3);
    assert_eq!(rev.size_hint(), (3, Some(3)));
}

#[test]
fn mut_iterator_reports_exact_length() {
    let mut list = collect(0..5);

    let mut iter = list.iter_mut();
    assert_eq!(iter.size_hint(), (5, Some(5)));
    assert_eq!(iter.len(), 5);
    iter.next();
    iter.next_back();
    assert_eq!(iter.len(), 3);
    iter.next();
    iter.next();
    iter.next();
    assert_eq!(iter.len(), 0);
    assert!(matches!(iter.next(), None));
    assert_eq!(iter.len(), 0);
}

#[test]
fn iterators_are_fused() {
    let list = collect(0..2);
    let mut iter = list.iter();
    iter.next();
    iter.next();
    for _ in 0..3 {
        assert!(matches!(iter.next(), None));
        assert!(matches!(iter.next_back(), None));
    }

    let mut mut_list = collect(0..2);
    let mut iter = mut_list.iter_mut();
    iter.next();
    iter.next();
    assert!(matches!(iter.next(), None));
    assert!(matches!(iter.next_back(), None));
    assert!(matches!(iter.next(), None));

    let mut iter = list.into_iter();
    iter.next();
    iter.next();
    assert!(matches!(iter.next(), None));
    assert!(matches!(iter.next_back(), None));
    assert!(matches!(iter.next(), None));
}

#[test]
fn last_returns_the_back_element() {
    let list = collect(0..5);
    assert_eq!(list.iter().last(), Some(&4));
    assert_eq!(XorList::<i32>::new().iter().last(), None);

    let mut mut_list = collect(0..5);
    assert_eq!(mut_list.iter_mut().last(), Some(&mut 4));
    assert_eq!(mut_list.into_iter().last(), Some(4));
}

#[test]
fn into_iter_consumes_from_both_ends() {
    let list = collect(0..5);

    let mut iter = list.into_iter();
    assert_eq!(iter.size_hint(), (5, Some(5)));
    assert_eq!(iter.next(), Some(0));
    assert_eq!(iter.next_back(), Some(4));
    assert_eq!(iter.len(), 3);
    assert_eq!(iter.next(), Some(1));
    assert_eq!(iter.next_back(), Some(3));
    assert_eq!(iter.next(), Some(2));
    assert!(matches!(iter.next(), None));
    assert!(matches!(iter.next_back(), None));
    assert_eq!(iter.len(), 0);
}

#[test]
fn into_iter_can_be_cloned_mid_iteration() {
    let list = collect(0..4);

    let mut iter = list.into_iter();
    iter.next();
    let clone = iter.clone();
    assert_eq!(drain_owned(clone), vec![1, 2, 3]);
    assert_eq!(drain_owned(iter), vec![1, 2, 3]);
}

#[test]
fn iter_debug_formatting_works() {
    let list = collect(0..3);

    let mut iter = list.iter();
    iter.next();
    assert_eq!(&iter.debug_string(false), "Iter(1(slot #1) <=> 2(slot #2))");

    assert_eq!(&XorList::<i32>::new().iter().debug_string(false), "Iter()");
}

#[test]
fn iter_debug_prints_actual_slot_numbers() {
    // Same layout as basic::debug_formatting_works: 420 @ slot 1,
    // 1337 @ slot 0, 42 @ slot 2
    let mut list = XorList::new();
    list.push_front(1337i32);
    list.push_front(420);
    list.push_back(42);

    assert_eq!(
        &list.iter().debug_string(false),
        "Iter(420(slot #1) <=> 1337(slot #0) <=> 42(slot #2))"
    );
}

#[test]
fn into_iter_debug_formatting_works() {
    let list = collect(0..3);
    assert_eq!(
        &list.into_iter().debug_string(false),
        "IntoIter(XorList(0(slot #0) <=> 1(slot #1) <=> 2(slot #2)))"
    );
}

#[test]
fn iter_debug_alternate_lists_one_entry_per_line() {
    let list = collect(10..12);
    assert_eq!(
        &list.iter().debug_string(true),
        "Iter(\n    10(slot #0)\n    <=> 11(slot #1)\n)"
    );
    assert_eq!(&XorList::<i32>::new().iter().debug_string(true), "Iter()");
}

#[test]
fn into_iter_debug_alternate_nests_the_list() {
    let list = collect(0..2);
    assert_eq!(
        &list.into_iter().debug_string(true),
        "IntoIter(\n    XorList(\n        0(slot #0)\n        <=> 1(slot #1)\n    ),\n)"
    );
}

#[test]
fn iterators_hand_out_every_element_once_from_both_ends() {
    let list = collect(0..7);
    let mut iter = list.iter();
    let mut front = Vec::new();
    let mut back = Vec::new();
    loop {
        match iter.next() {
            Some(&x) => front.push(x),
            None => break,
        }
        match iter.next_back() {
            Some(&x) => back.push(x),
            None => break,
        }
    }
    back.reverse();
    front.extend(back);
    assert_eq!(front, vec![0, 1, 2, 3, 4, 5, 6]);
}

#[test]
fn iter_mut_edits_reach_the_list() {
    let mut list = collect(0..3);
    {
        let mut iter = list.iter_mut();
        while let Some(x) = iter.next() {
            *x += 10;
        }
    }
    let mut iter = list.iter();
    let mut out = Vec::new();
    while let Some(&x) = iter.next() {
        out.push(x);
    }
    assert_eq!(out, vec![10, 11, 12]);
    assert_eq!(list.slot(0), Some(&10));
}

#[test]
fn iter_debug_lists_from_the_front_to_the_end_of_the_list() {
    let list = collect(0..3);
    let mut iter = list.iter();
    iter.next_back();
    assert_eq!(
        &iter.debug_string(false),
        "Iter(0(slot #0) <=> 1(slot #1) <=> 2(slot #2))"
    );
    iter.next_back();
    iter.next_back();
    assert_eq!(&iter.debug_string(false), "Iter()");
    assert_eq!(&iter.debug_string(true), "Iter()");
}
