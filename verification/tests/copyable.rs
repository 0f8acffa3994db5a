use btree_store::copyable;
use btree_store::map::BTreeMap;
use btree_store::store::Store;
use std::cell::Cell;
use std::rc::Rc;

#[test]
fn test_copy() {
    let mut store = Store::new();

    let mut map = BTreeMap::new_in(&store);
    map.insert(&mut store, 1, 10);
    map.insert(&mut store, 2, 20);

    let map = copyable::BTreeMap::from(map);
    let map2 = map.clone();

    assert_eq!(map.len(), 2);
    assert_eq!(map2.len(), 2);

    assert_eq!(map.get(&store, &1), Some(&10));
    assert_eq!(map2.get(&store, &2), Some(&20));
}

#[test]
fn test_large_map() {
    let mut store = Store::new();

    let mut map = BTreeMap::new_in(&store);
    for i in 0..1000 {
        map.insert(&mut store, i, i * 10);
    }

    let map = copyable::BTreeMap::from(map);

    assert_eq!(map.len(), 1000);
    for i in 0..1000 {
        assert_eq!(map.get(&store, &i), Some(&(i * 10)));
    }
}

#[test]
fn test_copy_contains() {
    let mut store = Store::new();

    let mut map = BTreeMap::new_in(&store);
    for i in 0..100 {
        map.insert(&mut store, i * 10, i * 10);
    }

    let map = copyable::BTreeMap::from(map);
    let map2 = map.clone();

    assert!(map.contains_key(&store, &300));
    assert!(!map.contains_key(&store, &301));
    assert!(map2.contains_key(&store, &300));
    assert!(!map2.contains_key(&store, &301));
}

#[test]
fn test_concurrent_iter() {
    let mut store = Store::new();

    let mut map = BTreeMap::new_in(&store);
    map.insert(&mut store, 2, 30);
    map.insert(&mut store, 1, 20);
    map.insert(&mut store, 3, 10);

    let map = copyable::BTreeMap::from(map);
    let map2 = map.clone();

    let mut forward = map.keys(&store);
    let mut backward = map2.keys(&store);
    let mut keys = Vec::new();
    let mut keys2 = Vec::new();
    while let Some(k) = forward.next() {
        keys.push(k);
    }
    while let Some(k) = backward.next_back() {
        keys2.push(k);
    }

    assert_eq!(keys, vec![&1, &2, &3]);
    assert_eq!(keys2, vec![&3, &2, &1]);
}

#[test]
fn test_create_after_drop() {
    let mut store = Store::new();

    {
        let mut map = BTreeMap::new_in(&store);
        map.insert(&mut store, 1, 10);
        map.clear(&mut store);
    }

    let map = copyable::BTreeMap::from(BTreeMap::<i32, i32>::new_in(&store));

    assert!(map.is_empty());
}

#[test]
fn test_drop_contents() {
    struct DropCounter {
        drop_count: Rc<Cell<usize>>,
    }

    impl DropCounter {
        fn new(drop_count: &Rc<Cell<usize>>) -> Self {
            Self {
                drop_count: drop_count.clone(),
            }
        }
    }

    impl Drop for DropCounter {
        fn drop(&mut self) {
            self.drop_count.set(self.drop_count.get() + 1);
        }
    }

    let mut store = Store::new();
    let drop_count = Rc::new(Cell::new(0));

    let mut map = BTreeMap::new_in(&store);
    map.insert(&mut store, 1, DropCounter::new(&drop_count));
    map.insert(&mut store, 2, DropCounter::new(&drop_count));

    assert_eq!(drop_count.get(), 0);
    assert!(map.contains_key(&store, &1));
    assert!(map.contains_key(&store, &2));

    let mut map2 = BTreeMap::new_in(&store);
    map2.insert(&mut store, 3, DropCounter::new(&drop_count));
    map2.insert(&mut store, 4, DropCounter::new(&drop_count));
    map2.insert(&mut store, 5, DropCounter::new(&drop_count));
    let map2 = copyable::BTreeMap::from(map2);
    let map3 = map2.clone();

    assert_eq!(drop_count.get(), 0);
    assert!(map2.contains_key(&store, &3));
    assert!(map2.contains_key(&store, &4));
    assert!(map2.contains_key(&store, &5));

    drop(map2);
    assert_eq!(drop_count.get(), 0);
    // a map gives its cells back when it is cleared
    map.clear(&mut store);
    assert_eq!(drop_count.get(), 2);
    drop(map3);
    assert_eq!(drop_count.get(), 2);
}
