use btree_store::copyable;
use btree_store::map::BTreeMap;
use btree_store::slab::SlabView;
use btree_store::store::{BTreeStore, Store};

#[test]
fn frozen_handles_agree_and_collection_empties_the_arena() {
    let mut store: BTreeStore<u32, u32> = Store::new();
    let mut map = BTreeMap::new_in(&store);
    for i in 0..1000u32 {
        map.insert(&mut store, i, i * 10);
    }
    let frozen = copyable::BTreeMap::from(map);
    let mut handles = Vec::new();
    for _ in 0..10 {
        handles.push(frozen.clone());
    }
    for handle in &handles {
        assert_eq!(handle.len(), 1000);
        for i in 0..1000u32 {
            assert_eq!(handle.get(&store, &i), Some(&(i * 10)));
        }
        assert_eq!(handle.to_vec(&store), frozen.to_vec(&store));
    }
    // a pass that knows the handles keeps every cell
    let live = (0..store.capacity()).filter(|id| store.get(*id).is_some()).count();
    copyable::tracing_gc(&mut store, &handles);
    let still = (0..store.capacity()).filter(|id| store.get(*id).is_some()).count();
    assert_eq!(live, still);
    assert_eq!(frozen.get(&store, &500), Some(&5000));
    // a pass over no handles empties the arena
    drop(handles);
    copyable::tracing_gc(&mut store, &Vec::new());
    let left = (0..store.capacity()).filter(|id| store.get(*id).is_some()).count();
    assert_eq!(left, 0);
}

#[test]
fn collection_keeps_what_is_reached() {
    let mut store: BTreeStore<u32, &str> = Store::new();
    let mut kept = BTreeMap::new_in(&store);
    let mut lost = BTreeMap::new_in(&store);
    for i in 0..100u32 {
        kept.insert(&mut store, i, "kept");
        lost.insert(&mut store, i, "lost");
    }
    let lost_root = lost.root_id().unwrap();
    let kept = copyable::BTreeMap::from(kept);
    let _lost = copyable::BTreeMap::from(lost);
    copyable::tracing_gc(&mut store, &vec![kept.clone()]);
    assert!(store.get(lost_root).is_none());
    assert_eq!(kept.len(), 100);
    for i in 0..100u32 {
        assert_eq!(kept.get(&store, &i), Some(&"kept"));
    }
    assert_eq!(kept.first_key_value(&store), Some((&0, &"kept")));
    assert_eq!(kept.last_key_value(&store), Some((&99, &"kept")));
    assert!(kept.contains_key(&store, &7));
    assert_eq!(kept.get_key(&store, &7), Some(&7));
}
