use xorlist_rs::XorList;

fn collect(range: std::ops::Range<i32>) -> XorList<i32> {
    XorList::from(range.collect::<Vec<i32>>())
}

fn items(list: &XorList<i32>) -> Vec<i32> {
    let mut iter = list.iter();
    let mut out = Vec::new();
    while let Some(x) = iter.next() {
        out.push(*x);
    }
    out
}

fn items_rev(list: &XorList<i32>) -> Vec<i32> {
    let mut iter = list.iter();
    let mut out = Vec::new();
    while let Some(x) = iter.next_back() {
        out.push(*x);
    }
    out
}

#[test]
fn split_off_at_zero_moves_everything() {
    let mut list = collect(0..5);
    let tail = list.split_off(0);
    assert!(list.is_empty());
    assert_eq!(items(&tail), vec![0, 1, 2, 3, 4]);
}

#[test]
fn split_off_at_len_moves_nothing() {
    let mut list = collect(0..5);
    let tail = list.split_off(5);
    assert!(tail.is_empty());
    assert_eq!(items(&list), vec![0, 1, 2, 3, 4]);
}

#[test]
fn split_off_near_the_back_returns_the_back_half() {
    // at >= len - at: the departing half is walked and moved out
    let mut list = collect(0..6);
    let tail = list.split_off(4);
    assert_eq!(items(&list), vec![0, 1, 2, 3]);
    assert_eq!(items(&tail), vec![4, 5]);
    assert_eq!(list.len(), 4);
    assert_eq!(tail.len(), 2);
}

#[test]
fn split_off_near_the_front_returns_the_back_half() {
    // at < len - at: the kept half is walked into fresh storage and the
    // lists swap ownership
    let mut list = collect(0..6);
    let tail = list.split_off(2);
    assert_eq!(items(&list), vec![0, 1]);
    assert_eq!(items(&tail), vec![2, 3, 4, 5]);
    assert_eq!(list.len(), 2);
    assert_eq!(tail.len(), 4);
}

#[test]
fn split_off_at_every_point_is_consistent() {
    for at in 0..=7usize {
        let mut list = collect(0..7);
        let mut tail = list.split_off(at);
        assert_eq!(
            items(&list),
            (0..at as i32).collect::<Vec<_>>(),
            "kept half wrong when splitting at {at}"
        );
        assert_eq!(
            items(&tail),
            (at as i32..7).collect::<Vec<_>>(),
            "split half wrong when splitting at {at}"
        );

        // Both halves must remain fully usable after the split
        list.push_back(100);
        tail.push_front(200);
        assert_eq!(list.back(), Some(&100));
        assert_eq!(tail.front(), Some(&200));
        let mut rev = list.iter();
        rev.next_back();
        let second_from_back = rev.next_back().copied();
        assert_eq!(
            second_from_back,
            if at > 0 { Some(at as i32 - 1) } else { None },
            "kept half must stay traversable from the back when splitting at {at}"
        );
    }
}

#[test]
fn split_off_front_branch_kept_half_survives_push_back() {
    // Front branch (at < len - at): the kept half is rebuilt into fresh
    // storage, so its tail link must reference new-storage coordinates
    let mut list = collect(0..7);
    let _ = list.split_off(2);
    list.push_back(100);
    assert_eq!(items(&list), vec![0, 1, 100]);
}

#[test]
fn split_off_front_branch_works_on_scattered_slot_layouts() {
    let mut list = XorList::new();
    for i in (0..6i32).rev() {
        list.push_front(i);
    }

    let tail = list.split_off(2);
    assert_eq!(items(&tail), vec![2, 3, 4, 5]);
    assert_eq!(items(&list), vec![0, 1]);
    assert_eq!(items_rev(&list), vec![1, 0]);
}

#[test]
fn split_off_works_on_scattered_slot_layouts() {
    // Building with push_front lays the slots out in reverse, so the
    // departing nodes are not contiguous in the backing storage
    let mut list = XorList::new();
    for i in (0..6i32).rev() {
        list.push_front(i);
    }

    let tail = list.split_off(3);
    assert_eq!(items(&list), vec![0, 1, 2]);
    assert_eq!(items(&tail), vec![3, 4, 5]);
    assert_eq!(items_rev(&tail), vec![5, 4, 3]);
}

#[test]
fn split_off_then_append_restores_the_elements() {
    for at in 0..=6usize {
        let mut list = XorList::new();
        for i in (0..6i32).rev() {
            list.push_front(i);
        }
        let mut tail = list.split_off(at);
        list.append(&mut tail);
        assert_eq!(items(&list), vec![0, 1, 2, 3, 4, 5], "splitting at {at}");
        assert!(tail.is_empty());
    }
}

#[test]
fn split_off_front_branch_lays_the_kept_half_out_back_to_front() {
    let mut list = collect(0..6);
    let tail = list.split_off(2);
    assert_eq!(list.slot_count(), 2);
    assert_eq!(list.head(), 1);
    assert_eq!(list.tail(), 0);
    assert_eq!(tail.slot_count(), 6);
    assert_eq!(tail.dirty(), &[1, 0]);
}
