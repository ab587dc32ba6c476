use xorlist_rs::XorList;

fn items(list: &XorList<i32>) -> Vec<i32> {
    let mut iter = list.iter();
    let mut out = Vec::new();
    while let Some(x) = iter.next() {
        out.push(*x);
    }
    out
}

#[test]
fn get_works() {
    let mut list = XorList::new();
    assert!(matches!(list.get(0), None));

    for i in 0..5i32 {
        list.push_back(i);
    }

    // Indices on both sides of the midpoint, so both traversal
    // directions are exercised
    for i in 0..5 {
        assert_eq!(list.get(i), Some(&(i as i32)), "wrong value at index {i}");
    }
    assert!(matches!(list.get(5), None));
    assert!(matches!(list.get(usize::MAX), None));
}

#[test]
fn get_mut_works() {
    let mut list = XorList::new();
    assert!(matches!(list.get_mut(0), None));

    for i in 0..5i32 {
        list.push_back(i);
    }

    for i in 0..5 {
        let value = list.get_mut(i);
        assert_eq!(value, Some(&mut (i as i32)), "wrong value at index {i}");
        *value.unwrap() += 100;
    }
    assert!(matches!(list.get_mut(5), None));
    assert!(matches!(list.get_mut(usize::MAX), None));

    assert_eq!(items(&list), vec![100, 101, 102, 103, 104]);
}

#[test]
fn get_unchecked_works() {
    let mut list = XorList::new();
    for i in 0..5i32 {
        list.push_back(i);
    }

    for i in 0..5 {
        let value = list.get_unchecked(i);
        assert_eq!(*value, i as i32, "wrong value at index {i}");
    }
}

#[test]
fn get_unchecked_mut_works() {
    let mut list = XorList::new();
    for i in 0..5i32 {
        list.push_back(i);
    }

    for i in 0..5 {
        let value = list.get_unchecked_mut(i);
        assert_eq!(*value, i as i32, "wrong value at index {i}");
        *value += 100;
    }

    assert_eq!(items(&list), vec![100, 101, 102, 103, 104]);
}

#[test]
fn get_walks_scattered_layouts_from_either_end() {
    let mut list = XorList::new();
    for i in (0..7i32).rev() {
        list.push_front(i);
    }
    list.pop_front();
    list.push_back(7);
    for i in 0..7usize {
        assert_eq!(list.get(i), Some(&(i as i32 + 1)));
    }
    assert_eq!(list.get(7), None);
}
