use btree_store::map::BTreeMap;
use btree_store::slab::SlabView;
use btree_store::store::Store;

#[test]
fn drain_filter_takes_the_even_keys() {
    let mut store = Store::new();
    let mut map = BTreeMap::new_in(&store);
    for i in 0..8 {
        map.insert(&mut store, i, i * 10);
    }
    let drained = map.drain_filter(&mut store, |k: &i32, _: &i32| k % 2 == 0);
    assert_eq!(drained, vec![(0, 0), (2, 20), (4, 40), (6, 60)]);
    assert_eq!(map.to_vec(&store), vec![(&1, &10), (&3, &30), (&5, &50), (&7, &70)]);
}

#[test]
fn drain_filter_that_takes_everything_or_nothing() {
    let mut store = Store::new();
    let mut map = BTreeMap::new_in(&store);
    for i in 0..200u32 {
        map.insert(&mut store, i, ());
    }
    let none = map.drain_filter(&mut store, |_: &u32, _: &()| false);
    assert!(none.is_empty());
    assert_eq!(map.len(), 200);
    let all = map.drain_filter(&mut store, |_: &u32, _: &()| true);
    assert_eq!(all.len(), 200);
    for (i, (k, _)) in all.iter().enumerate() {
        assert_eq!(*k, i as u32);
    }
    assert!(map.is_empty());
    assert_eq!(map.root_id(), None);
}

#[test]
fn drain_filter_takes_the_last_item_of_a_leaf_and_goes_on() {
    let mut store = Store::new();
    let mut map = BTreeMap::new_in(&store);
    for i in 0..64u32 {
        map.insert(&mut store, i, i);
    }
    let drained = map.drain_filter(&mut store, |k: &u32, _: &u32| k % 4 == 3 || k % 8 == 0);
    let expected: Vec<(u32, u32)> =
        (0..64u32).filter(|k| k % 4 == 3 || k % 8 == 0).map(|k| (k, k)).collect();
    assert_eq!(drained, expected);
    assert_eq!(map.len(), 64 - expected.len());
}

#[test]
fn retain_keeps_what_the_predicate_picks() {
    let mut store = Store::new();
    let mut map = BTreeMap::new_in(&store);
    for i in 0..100u32 {
        map.insert(&mut store, i, i);
    }
    map.retain(&mut store, |k: &u32, _: &u32| k % 3 == 0);
    let keys: Vec<u32> = map.to_vec(&store).iter().map(|e| *e.0).collect();
    let expected: Vec<u32> = (0..100u32).filter(|k| k % 3 == 0).collect();
    assert_eq!(keys, expected);
}

#[test]
fn two_maps_in_one_arena_and_append() {
    let mut store = Store::new();
    let mut a = BTreeMap::new_in(&store);
    let mut b = BTreeMap::new_in(&store);
    for k in [1, 2, 3] {
        a.insert(&mut store, k, "a");
    }
    for k in [3, 4, 5] {
        b.insert(&mut store, k, "b");
    }
    assert_eq!(a.to_vec(&store), vec![(&1, &"a"), (&2, &"a"), (&3, &"a")]);
    assert_eq!(b.to_vec(&store), vec![(&3, &"b"), (&4, &"b"), (&5, &"b")]);
    a.append(&mut store, &mut b);
    assert_eq!(a.len(), 5);
    assert!(b.is_empty());
    assert_eq!(
        a.to_vec(&store),
        vec![(&1, &"a"), (&2, &"a"), (&3, &"b"), (&4, &"b"), (&5, &"b")]
    );
    // one leaf is left in the arena, the other cell is free again
    assert_eq!(store.capacity(), 2);
    assert!(store.get(a.root_id().unwrap()).is_some());
}

#[test]
fn into_vec_gives_the_cells_back() {
    let mut store = Store::new();
    let mut map = BTreeMap::new_in(&store);
    for i in (0..300u32).rev() {
        map.insert(&mut store, i, i + 1);
    }
    let used = store.capacity();
    let entries = map.into_vec(&mut store);
    assert_eq!(entries.len(), 300);
    for (i, (k, v)) in entries.iter().enumerate() {
        assert_eq!((*k, *v), (i as u32, i as u32 + 1));
    }
    for id in 0..used {
        assert!(store.get(id).is_none());
    }
    // the freed cells are used again
    let mut again = BTreeMap::new_in(&store);
    for i in (0..300u32).rev() {
        again.insert(&mut store, i, i);
    }
    assert_eq!(store.capacity(), used);
}

#[test]
fn clear_gives_the_cells_back() {
    let mut store = Store::new();
    let mut map = BTreeMap::new_in(&store);
    let mut other = BTreeMap::new_in(&store);
    for i in 0..40u32 {
        map.insert(&mut store, i, i);
        other.insert(&mut store, i, i * 2);
    }
    map.clear(&mut store);
    assert!(map.is_empty());
    assert_eq!(other.len(), 40);
    for i in 0..40u32 {
        assert_eq!(other.get(&store, &i), Some(&(i * 2)));
    }
}

#[test]
fn pop_first_and_pop_last() {
    let mut store = Store::new();
    let mut map = BTreeMap::new_in(&store);
    assert_eq!(map.pop_first(&mut store), None::<(u8, u8)>);
    for i in 0..20u8 {
        map.insert(&mut store, i, i);
    }
    assert_eq!(map.first_key_value(&store), Some((&0, &0)));
    assert_eq!(map.last_key_value(&store), Some((&19, &19)));
    assert_eq!(map.pop_first(&mut store), Some((0, 0)));
    assert_eq!(map.pop_last(&mut store), Some((19, 19)));
    assert_eq!(map.len(), 18);
    let mut iter = map.into_iter();
    assert_eq!(iter.next(&mut store), Some((1, 1)));
    assert_eq!(iter.next_back(&mut store), Some((18, 18)));
    assert_eq!(iter.len(), 16);
}

#[test]
fn update_inserts_replaces_and_removes() {
    let mut store = Store::new();
    let mut map = BTreeMap::new_in(&store);
    let seen = map.update(&mut store, 7, |v: Option<u32>| (Some(1), v));
    assert_eq!(seen, None);
    let seen = map.update(&mut store, 7, |v: Option<u32>| (v.map(|x| x + 1), v));
    assert_eq!(seen, Some(1));
    assert_eq!(map.get(&store, &7), Some(&2));
    let seen = map.update(&mut store, 7, |v: Option<u32>| (None, v));
    assert_eq!(seen, Some(2));
    assert!(!map.contains_key(&store, &7));
    assert_eq!(map.len(), 0);
    let seen = map.update(&mut store, 7, |v: Option<u32>| (None, v));
    assert_eq!(seen, None);
    assert_eq!(map.len(), 0);
}
