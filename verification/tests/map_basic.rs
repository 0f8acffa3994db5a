use btree_store::map::BTreeMap;
use btree_store::store::Store;

#[test]
fn insert_then_get() {
    let mut store = Store::new();
    let mut map: BTreeMap<u64, u64> = BTreeMap::new_in(&store);
    for i in 0..1000u64 {
        let key = (i * 7919) % 1009;
        assert_eq!(map.insert(&mut store, key, key * 10), None);
    }
    assert_eq!(map.len(), 1000);
    for i in 0..1000u64 {
        let key = (i * 7919) % 1009;
        assert_eq!(map.get(&store, &key), Some(&(key * 10)));
    }
    assert_eq!(map.insert(&mut store, 5, 1), Some(50));
    assert_eq!(map.get(&store, &5), Some(&1));
    assert_eq!(map.len(), 1000);
    assert!(!map.contains_key(&store, &5000));
}

#[test]
fn insert_and_remove_agree_with_a_sorted_reference() {
    let mut store = Store::new();
    let mut map: BTreeMap<u32, u32> = BTreeMap::new_in(&store);
    let mut reference = std::collections::BTreeMap::new();
    let mut seed: u32 = 12345;
    for _ in 0..20000 {
        seed = seed.wrapping_mul(1664525).wrapping_add(1013904223);
        let key = (seed >> 16) % 500;
        if (seed >> 8) % 3 == 0 {
            assert_eq!(map.remove(&mut store, &key), reference.remove(&key));
        } else {
            assert_eq!(map.insert(&mut store, key, seed), reference.insert(key, seed));
        }
        assert_eq!(map.len(), reference.len());
    }
    for key in 0..500u32 {
        assert_eq!(map.get(&store, &key), reference.get(&key));
    }
    for key in 0..500u32 {
        assert_eq!(map.remove(&mut store, &key), reference.remove(&key));
    }
    assert!(map.is_empty());
}
