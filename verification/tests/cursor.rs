use xorlist_rs::{Iter, XorList};

fn filled(n: i32) -> XorList<i32> {
    let mut list = XorList::new();
    for i in 0..n {
        list.push_back(i);
    }
    list
}

fn drain(mut iter: Iter<'_, i32>) -> Vec<i32> {
    let mut out = Vec::new();
    while let Some(x) = iter.next() {
        out.push(*x);
    }
    out
}

fn count(mut iter: Iter<'_, i32>) -> usize {
    let mut n = 0;
    while iter.next().is_some() {
        n += 1;
    }
    n
}

#[test]
fn back_consumption_does_not_corrupt_front_index() {
    let list = filled(5);

    let mut iter = list.iter();
    iter.next();
    // Consuming from the back must not disturb the front index
    iter.next_back();
    iter.next_back();

    let cursor = iter.clone().cursor_front();
    assert_eq!(cursor.index(), Some(1));
    assert_eq!(cursor.current(), Some(&1));

    let cursor = iter.cursor_back();
    assert_eq!(cursor.index(), Some(2));
    assert_eq!(cursor.current(), Some(&2));
}

#[test]
fn with_cursor_back_bounds_iterator_at_cursor() {
    let list = filled(5);

    // A cursor two elements in from the back bounds the iterator to 0..=2
    let mut iter = list.iter();
    iter.next_back();
    iter.next_back();
    let bounded = Iter::with_cursor_back(iter.cursor_back());
    assert_eq!(bounded.len(), 3);
    assert_eq!(drain(bounded), vec![0, 1, 2]);

    // Round-tripping a fresh iterator through cursor_back preserves it
    let round_trip = Iter::with_cursor_back(list.iter().cursor_back());
    assert_eq!(round_trip.len(), list.len());
    assert_eq!(drain(round_trip), vec![0, 1, 2, 3, 4]);
}

#[test]
fn cursor_back_on_exhausted_iterator_does_not_panic() {
    let list = filled(5);

    let mut iter = list.iter();
    while iter.next().is_some() {}
    let cursor = iter.cursor_back();
    assert_eq!(cursor.current(), Some(&4));
    assert_eq!(cursor.index(), Some(4));
}

#[test]
fn cursor_back_orientation_is_normalized() {
    let list = filled(5);

    // A tail cursor knows its head-side neighbor and can move backward
    let mut cursor = list.iter().cursor_back();
    assert_eq!(cursor.current(), Some(&4));
    assert_eq!(cursor.peek_prev(), Some(&3));
    assert!(matches!(cursor.peek_next(), None));
    cursor.move_prev();
    assert_eq!(cursor.current(), Some(&3));
    assert_eq!(cursor.index(), Some(3));

    // move_next on a back-derived cursor advances toward the tail
    cursor.move_next();
    assert_eq!(cursor.current(), Some(&4));
    assert_eq!(cursor.index(), Some(4));

    // and stepping past the tail parks the cursor on the ghost element
    cursor.move_next();
    assert!(matches!(cursor.current(), None));
    assert!(matches!(cursor.index(), None));
}

#[test]
fn partially_consumed_back_cursor_moves_toward_tail() {
    let list = filled(5);

    let mut iter = list.iter();
    iter.next_back();
    iter.next_back();

    let mut cursor = iter.cursor_back();
    assert_eq!(cursor.current(), Some(&2));
    cursor.move_next();
    assert_eq!(cursor.current(), Some(&3));
    assert_eq!(cursor.index(), Some(3));
}

#[test]
fn cursor_back_handles_empty_and_back_exhausted_iterators() {
    // Empty list: cursor_back lands on the ghost element instead of panicking
    let list = XorList::<i32>::new();
    let cursor = list.iter().cursor_back();
    assert!(matches!(cursor.current(), None));
    assert!(matches!(cursor.index(), None));

    // Iterator exhausted from the back: the cursor lands on the last element
    // yielded (the head), oriented so it can still move toward the tail
    let list = filled(3);
    let mut iter = list.iter();
    while iter.next_back().is_some() {}
    let mut cursor = iter.cursor_back();
    assert_eq!(cursor.current(), Some(&0));
    assert_eq!(cursor.index(), Some(0));
    cursor.move_next();
    assert_eq!(cursor.current(), Some(&1));
}

#[test]
fn list_cursor_back_handles_empty_list() {
    let list = XorList::<i32>::new();
    let cursor = list.cursor_back();
    assert!(matches!(cursor.index(), None));
    assert!(matches!(cursor.current(), None));

    let mut list = XorList::<i32>::new();
    let mut cursor = list.cursor_back_mut();
    assert!(matches!(cursor.index(), None));
    assert!(matches!(cursor.current(), None));
}

#[test]
fn with_cursor_back_handles_ghost_cursor() {
    let list = filled(3);

    let mut cursor = list.iter().cursor_back();
    cursor.move_next(); // step onto the ghost element
    assert!(matches!(cursor.current(), None));
    let bounded = Iter::with_cursor_back(cursor);
    assert_eq!(count(bounded), 0);

    // The empty list's ghost cursor is equally safe
    let list = XorList::<i32>::new();
    let bounded = Iter::with_cursor_back(list.iter().cursor_back());
    assert_eq!(count(bounded), 0);
}

#[test]
fn cursor_moves_are_undone_by_the_opposite_move() {
    let list = filled(4);
    let mut cursor = list.cursor_front();
    cursor.move_next();
    cursor.move_next();
    assert_eq!(cursor.current(), Some(&2));
    cursor.move_prev();
    cursor.move_next();
    assert_eq!(cursor.current(), Some(&2));
    assert_eq!(cursor.index(), Some(2));
    assert_eq!(cursor.peek_next(), Some(&3));
    assert_eq!(cursor.peek_prev(), Some(&1));
    assert_eq!(cursor.front(), Some(&0));
    assert_eq!(cursor.back(), Some(&3));
}

#[test]
fn cursor_slot_reports_the_slot_of_the_current_element() {
    let mut list = XorList::new();
    let a = list.push_back(10i32);
    let b = list.push_front(20);
    let mut cursor = list.cursor_front();
    assert_eq!(cursor.slot(), Some(b));
    cursor.move_next();
    assert_eq!(cursor.slot(), Some(a));
    cursor.move_next();
    assert_eq!(cursor.slot(), None);
}

#[test]
fn cursor_mut_edits_in_place() {
    let mut list = filled(3);
    {
        let mut cursor = list.cursor_front_mut();
        cursor.move_next();
        if let Some(x) = cursor.current() {
            *x += 10;
        }
        if let Some(x) = cursor.peek_next() {
            *x += 20;
        }
        if let Some(x) = cursor.peek_prev() {
            *x += 30;
        }
        assert_eq!(cursor.index(), Some(1));
        assert_eq!(cursor.as_cursor().current(), Some(&11));
        assert_eq!(cursor.as_list().len(), 3);
    }
    assert_eq!(drain(list.iter()), vec![30, 11, 22]);
}

#[test]
fn cursor_front_of_an_exhausted_iterator_rests_on_the_ghost() {
    let list = filled(2);
    let mut iter = list.iter();
    iter.next_back();
    iter.next_back();
    let cursor = iter.cursor_front();
    assert_eq!(cursor.index(), None);
    assert_eq!(cursor.current(), None);
    assert_eq!(cursor.peek_prev(), Some(&1));
}

#[test]
fn cursor_back_rests_on_the_last_element_yielded_from_the_back() {
    let list = filled(3);
    let mut iter = list.iter();
    assert_eq!(iter.next(), Some(&0));
    assert_eq!(iter.next_back(), Some(&2));
    assert_eq!(iter.next_back(), Some(&1));
    let mut cursor = iter.cursor_back();
    assert_eq!(cursor.current(), Some(&1));
    assert_eq!(cursor.index(), Some(1));
    cursor.move_next();
    assert_eq!(cursor.current(), Some(&2));
}

#[test]
fn cursor_mut_edits_reach_the_list() {
    let mut list = filled(3);
    {
        let mut cursor = list.cursor_back_mut();
        *cursor.current().unwrap() = 10;
    }
    assert_eq!(list.back(), Some(&10));
    assert_eq!(drain(list.iter()), vec![0, 1, 10]);

    {
        let mut cursor = list.cursor_back_mut();
        cursor.move_prev();
    }
    assert_eq!(drain(list.iter()), vec![0, 1, 10]);
}

#[test]
fn cursor_back_after_exhaustion_from_the_front_rests_before_the_back_end() {
    let list = filled(3);
    let mut iter = list.iter();
    assert_eq!(iter.next_back(), Some(&2));
    assert_eq!(iter.next(), Some(&0));
    assert_eq!(iter.next(), Some(&1));
    let mut cursor = iter.cursor_back();
    assert_eq!(cursor.current(), Some(&1));
    assert_eq!(cursor.index(), Some(1));
    cursor.move_next();
    assert_eq!(cursor.current(), Some(&2));
}
