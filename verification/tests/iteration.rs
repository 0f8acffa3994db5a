use btree_store::map::BTreeMap;
use btree_store::range::Bound;
use btree_store::store::Store;

#[test]
fn insert_three_then_remove_the_middle_one() {
    let mut store = Store::new();
    let mut map = BTreeMap::new_in(&store);
    map.insert(&mut store, 1, "a");
    map.insert(&mut store, 2, "b");
    map.insert(&mut store, 3, "c");
    assert_eq!(map.to_vec(&store), vec![(&1, &"a"), (&2, &"b"), (&3, &"c")]);
    assert_eq!(map.remove(&mut store, &2), Some("b"));
    assert_eq!(map.to_vec(&store), vec![(&1, &"a"), (&3, &"c")]);
}

#[test]
fn range_over_odd_numbers() {
    let mut store = Store::new();
    let mut map = BTreeMap::new_in(&store);
    let mut i = 1;
    while i <= 19 {
        map.insert(&mut store, i, i * 100);
        i += 2;
    }
    let mut range = map.range(&store, Bound::Included(&4), Bound::Included(&13));
    let mut forward = Vec::new();
    while let Some((k, _)) = range.next() {
        forward.push(*k);
    }
    assert_eq!(forward, vec![5, 7, 9, 11, 13]);

    let mut range = map.range(&store, Bound::Included(&4), Bound::Included(&13));
    let mut backward = Vec::new();
    while let Some((k, _)) = range.next_back() {
        backward.push(*k);
    }
    assert_eq!(backward, vec![13, 11, 9, 7, 5]);

    let mut range = map.range(&store, Bound::Included(&4), Bound::Included(&13));
    assert_eq!(range.next().map(|e| *e.0), Some(5));
    assert_eq!(range.next_back().map(|e| *e.0), Some(13));
    assert_eq!(range.next().map(|e| *e.0), Some(7));
    assert_eq!(range.next_back().map(|e| *e.0), Some(11));
    assert_eq!(range.next().map(|e| *e.0), Some(9));
    assert_eq!(range.next_back().map(|e| *e.0), None);
    assert_eq!(range.next().map(|e| *e.0), None);
}

#[test]
fn range_bounds_are_respected() {
    let mut store = Store::new();
    let mut map = BTreeMap::new_in(&store);
    for i in 0..100u32 {
        map.insert(&mut store, i * 2, i);
    }
    let collect = |start: Bound<&u32>, end: Bound<&u32>| {
        let mut range = map.range(&store, start, end);
        let mut keys = Vec::new();
        while let Some((k, _)) = range.next() {
            keys.push(*k);
        }
        keys
    };
    assert_eq!(collect(Bound::Excluded(&10), Bound::Excluded(&16)), vec![12, 14]);
    assert_eq!(collect(Bound::Included(&10), Bound::Excluded(&16)), vec![10, 12, 14]);
    assert_eq!(collect(Bound::Excluded(&11), Bound::Included(&16)), vec![12, 14, 16]);
    assert_eq!(collect(Bound::Included(&11), Bound::Included(&11)), Vec::<u32>::new());
    assert_eq!(collect(Bound::Included(&12), Bound::Excluded(&12)), Vec::<u32>::new());
    assert_eq!(collect(Bound::Unbounded, Bound::Excluded(&4)), vec![0, 2]);
    assert_eq!(collect(Bound::Included(&195), Bound::Unbounded), vec![196, 198]);
    assert_eq!(collect(Bound::Excluded(&198), Bound::Unbounded), Vec::<u32>::new());
    assert_eq!(collect(Bound::Unbounded, Bound::Unbounded).len(), 100);
}

#[test]
fn double_ended_iteration_meets_in_the_middle() {
    let mut store = Store::new();
    let mut map = BTreeMap::new_in(&store);
    for i in 0..50u32 {
        map.insert(&mut store, i, i);
    }
    let mut iter = map.iter(&store);
    let mut low = 0;
    let mut high = 49;
    loop {
        match iter.next() {
            Some((k, _)) => {
                assert_eq!(*k, low);
                low += 1;
            }
            None => break,
        }
        match iter.next_back() {
            Some((k, _)) => {
                assert_eq!(*k, high);
                high -= 1;
            }
            None => break,
        }
    }
    assert_eq!(low, 25);
    assert_eq!(high, 24);
    assert_eq!(iter.len(), 0);
}
