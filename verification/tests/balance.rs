use btree_store::addr::{Address, Offset};
use btree_store::arena::TypedArena;
use btree_store::dense::DenseSlab;
use btree_store::map::BTreeMap;
use btree_store::node::{Item, Node};
use btree_store::range::Bound;
use btree_store::set::BTreeSet;
use btree_store::slab::{Slab, SlabView};
use btree_store::store::{OwnedStore, Store};

#[test]
fn dense_slab_gives_the_lowest_free_index() {
    let mut slab = DenseSlab::new();
    assert_eq!(slab.insert("a"), 0);
    assert_eq!(slab.insert("b"), 1);
    assert_eq!(slab.insert("c"), 2);
    assert_eq!(slab.remove(0), Some("a"));
    assert_eq!(slab.remove(1), Some("b"));
    assert_eq!(slab.remove(1), None);
    assert_eq!(slab.insert("v"), 0);
    assert_eq!(slab.get(0), Some(&"v"));
    assert_eq!(slab.get(1), None);
    assert_eq!(slab.get(2), Some(&"c"));
    assert_eq!(slab.insert("w"), 1);
    assert_eq!(slab.insert("x"), 3);
    assert_eq!(slab.capacity(), 4);
    assert_eq!(slab.remove(2), Some("c"));
    assert_eq!(slab.remove(0), Some("v"));
    assert_eq!(slab.insert("y"), 0);
    assert_eq!(slab.insert("z"), 2);
    assert_eq!(slab.insert("last"), 4);
}

#[test]
fn owned_slab_gives_the_lowest_free_index() {
    let mut slab = OwnedStore::new();
    assert_eq!(slab.insert(10), 0);
    assert_eq!(slab.insert(11), 1);
    assert_eq!(slab.insert(12), 2);
    assert_eq!(slab.remove(0), Some(10));
    assert_eq!(slab.remove(1), Some(11));
    assert_eq!(slab.insert(13), 0);
    assert_eq!(slab.get(2), Some(&12));
    assert!(slab.clear_fast());
    assert_eq!(slab.get(0), None);
    assert_eq!(slab.get(2), None);
    assert_eq!(slab.insert(14), 0);
}

#[test]
fn arena_store_takes_the_cell_vacated_last_and_is_not_emptied_at_once() {
    let mut store = Store::new();
    assert_eq!(store.insert(1), 0);
    assert_eq!(store.insert(2), 1);
    assert_eq!(store.insert(3), 2);
    assert_eq!(store.remove(0), Some(1));
    assert_eq!(store.remove(1), Some(2));
    assert!(!store.clear_fast());
    assert_eq!(store.get(2), Some(&3));
    assert_eq!(store.insert(4), 1);
    assert_eq!(store.insert(5), 0);
    assert_eq!(store.insert(6), 3);
    let mut shared = DenseSlab::new();
    shared.insert(1);
    assert!(!shared.clear_fast());
    assert_eq!(shared.get(0), Some(&1));
}

#[test]
fn rebalance_after_an_item_was_put_into_a_full_leaf() {
    let mut store = OwnedStore::new();
    let mut map = BTreeMap::new_in(&store);
    for i in 0..7u32 {
        map.insert(&mut store, i, i * 10);
    }
    let a = map.address_of(&store, &7).unwrap_err();
    map.put_at(&mut store, a, Item::new(7, 70));
    assert_eq!(map.node(&store, a.id).item_count(), 8);
    let r = map.rebalance(&mut store, a.id, a);
    assert_ne!(r.id, a.id);
    let item = map.item(&store, r).unwrap();
    assert_eq!((*item.key(), *item.value()), (7, 70));
    let root = map.root_id().unwrap();
    assert_eq!(map.node(&store, root).item_count(), 1);
    assert_eq!(map.node(&store, root).child_count(), 2);
    assert_eq!(map.len(), 8);
    assert!(map.validate(&store));
    let keys: Vec<u32> = map.to_vec(&store).into_iter().map(|(k, _)| *k).collect();
    assert_eq!(keys, vec![0, 1, 2, 3, 4, 5, 6, 7]);
    // the median moved up: an address on it is the address in the root
    let mut other_store = OwnedStore::new();
    let mut other = BTreeMap::new_in(&other_store);
    for i in [0u32, 1, 2, 4, 5, 6, 7] {
        other.insert(&mut other_store, i, i);
    }
    let gap = other.address_of(&other_store, &3).unwrap_err();
    other.put_at(&mut other_store, gap, Item::new(3, 3));
    let moved = other.rebalance(&mut other_store, gap.id, gap);
    assert_eq!(moved.id, other.root_id().unwrap());
    assert_eq!(*other.item(&other_store, moved).unwrap().key(), 3);
    // a balanced node is left as it is
    let again = other.rebalance(&mut other_store, moved.id, moved);
    assert_eq!((again.id, again.offset.value()), (moved.id, moved.offset.value()));
}

#[test]
fn remove_at_a_place_without_an_item_changes_nothing() {
    let mut store = Store::new();
    let mut map = BTreeMap::new_in(&store);
    for i in 0..5u32 {
        map.insert(&mut store, i, i);
    }
    let root = map.root_id().unwrap();
    let back = Address::new(root, Offset::new(5));
    assert!(map.remove_at(&mut store, back).is_none());
    assert_eq!(map.len(), 5);
    assert_eq!(map.to_vec(&store), vec![(&0, &0), (&1, &1), (&2, &2), (&3, &3), (&4, &4)]);
    let (item, place) = map.remove_at(&mut store, Address::new(root, Offset::new(4))).unwrap();
    assert_eq!(item.into_pair(), (4, 4));
    assert_eq!((place.id, place.offset.value()), (root, Some(4)));
    assert_eq!(map.len(), 4);
}

#[test]
fn draining_iterator_releases_every_node() {
    let mut store = Store::new();
    let mut other = BTreeMap::new_in(&store);
    other.insert(&mut store, 1000u32, 0u32);
    let mut map = BTreeMap::new_in(&store);
    for i in 0..200u32 {
        map.insert(&mut store, i, i);
    }
    let mut iter = map.into_iter();
    assert_eq!(iter.len(), 200);
    let mut count = 0;
    while let Some((k, _)) = iter.next(&mut store) {
        assert_eq!(k, count);
        count += 1;
    }
    assert_eq!(count, 200);
    assert_eq!(iter.len(), 0);
    let occupied = (0..store.capacity()).filter(|&i| store.get(i).is_some()).count();
    assert_eq!(occupied, 1);
    assert_eq!(other.to_vec(&store), vec![(&1000, &0)]);
}

#[test]
fn arena_iterators_start_in_order() {
    let empty: TypedArena<i32> = TypedArena::new();
    assert_eq!(empty.len(), 0);
    assert!(empty.iter().next_ref().is_none());
    assert!(empty.ptr_iter().next_ptr().is_none());
    let mut arena = TypedArena::new();
    arena.allocate(10);
    arena.allocate(20);
    arena.allocate(30);
    let mut iter = arena.iter();
    let mut seen = Vec::new();
    while let Some(x) = iter.next_ref() {
        seen.push(*x);
    }
    assert_eq!(seen, vec![10, 20, 30]);
    let mut places = arena.ptr_iter();
    assert_eq!(places.next_ptr(), Some(0));
    assert_eq!(places.remaining(), 2);
}

#[test]
fn set_operations_give_size_hints() {
    let mut store = Store::new();
    let mut a = BTreeSet::new_in(&store);
    let mut b = BTreeSet::new_in(&store);
    for i in 0..5u32 {
        a.insert(&mut store, i);
    }
    for i in 3..6u32 {
        b.insert(&mut store, i);
    }
    assert_eq!(a.union(&store, &b, &store).size_hint(), (3, Some(8)));
    assert_eq!(a.intersection(&store, &b, &store).size_hint(), (0, Some(3)));
    assert_eq!(a.difference(&store, &b, &store).size_hint(), (2, Some(5)));
    assert_eq!(b.difference(&store, &a, &store).size_hint(), (0, Some(3)));
    assert_eq!(a.symmetric_difference(&store, &b, &store).size_hint(), (0, Some(8)));
}

#[test]
fn rebalance_after_an_item_was_taken_out_of_a_leaf() {
    let mut store = OwnedStore::new();
    let mut map = BTreeMap::new_in(&store);
    for i in 0..8u32 {
        map.insert(&mut store, i, i * 10);
    }
    let root = map.root_id().unwrap();
    assert_eq!(map.node(&store, root).item_count(), 1);
    // the left leaf gives up an item and takes one from its sibling
    let a = map.address_of(&store, &0).unwrap();
    let item = map.take_at(&mut store, a);
    assert_eq!(item.into_pair(), (0, 0));
    assert_eq!(map.node(&store, a.id).item_count(), 2);
    let r = map.rebalance(&mut store, a.id, a);
    assert_eq!(*map.item(&store, r).unwrap().key(), 1);
    assert!(map.validate(&store));
    assert_eq!(map.node(&store, a.id).item_count(), 3);
    assert_eq!(*map.node(&store, root).item(0).unwrap().key(), 4);
    assert_eq!(map.len(), 7);
    // no sibling can spare an item now: the leaves are merged and the tree
    // loses a level
    let b = map.address_of(&store, &3).unwrap();
    assert_eq!(b.id, a.id);
    let item = map.take_at(&mut store, b);
    assert_eq!(item.into_pair(), (3, 30));
    let r = map.rebalance(&mut store, b.id, b);
    assert_eq!(*map.item(&store, r).unwrap().key(), 4);
    assert!(map.validate(&store));
    assert_eq!(map.height(&store), 1);
    let keys: Vec<u32> = map.to_vec(&store).into_iter().map(|(k, _)| *k).collect();
    assert_eq!(keys, vec![1, 2, 4, 5, 6, 7]);
    let occupied = (0..3).filter(|&i| store.get(i).is_some()).count();
    assert_eq!(occupied, 1);
}

#[test]
fn values_are_written_in_place() {
    let mut store = Store::new();
    let mut map = BTreeMap::new_in(&store);
    for i in 0..40u32 {
        map.insert(&mut store, i, i);
    }
    assert!(map.get_mut(&mut store, &40).is_none());
    for k in [0u32, 7, 19, 39] {
        *map.get_mut(&mut store, &k).unwrap() += 100;
        map.settle(&store, &k);
    }
    assert_eq!(map.get(&store, &7), Some(&107));
    assert_eq!(map.get(&store, &8), Some(&8));
    let (k, v) = map.get_key_value_mut(&mut store, &8).unwrap();
    assert_eq!(*k, 8);
    *v = 1;
    map.settle(&store, &8);
    let (k, v) = map.first_key_value_mut(&mut store).unwrap();
    assert_eq!((*k, *v), (0, 100));
    *v = 2;
    map.settle(&store, &0);
    let (k, v) = map.last_key_value_mut(&mut store).unwrap();
    assert_eq!((*k, *v), (39, 139));
    *v = 3;
    map.settle(&store, &39);
    let addr = map.address_of(&store, &19).unwrap();
    *map.value_mut_at(&mut store, addr) = 4;
    map.settle(&store, &19);
    assert_eq!(map.first_key_value(&store), Some((&0, &2)));
    assert_eq!(map.last_key_value(&store), Some((&39, &3)));
    assert_eq!(map.get(&store, &8), Some(&1));
    assert_eq!(map.get(&store, &19), Some(&4));
    assert_eq!(map.len(), 40);
    assert!(map.validate(&store));
    let mut empty: BTreeMap<u32, u32> = BTreeMap::new_in(&store);
    assert!(empty.first_key_value_mut(&mut store).is_none());
    assert!(empty.last_key_value_mut(&mut store).is_none());
    empty.insert(&mut store, 1, 1);
    assert_eq!(map.len(), 40);
}

#[test]
fn validate_fails_where_the_slab_does_not_hold_the_tree() {
    let mut store = Store::new();
    let mut map = BTreeMap::new_in(&store);
    for i in 0..30u32 {
        map.insert(&mut store, i, i);
    }
    assert!(map.validate(&store));
    let root = map.root_id().unwrap();
    assert_eq!(map.validate_node(&store, root, None, None, None), Some(1));
    // the root is not a child of itself, and its keys are not below 5
    assert_eq!(map.validate_node(&store, root, Some(root), None, None), None);
    assert_eq!(map.validate_node(&store, root, None, None, Some(&5)), None);
    // a slab without the cells of the tree
    let empty: Store<Node<u32, u32>> = Store::new();
    assert!(!map.validate(&empty));
    // a slab whose cells hold another tree
    let mut other_store = Store::new();
    let mut other = BTreeMap::new_in(&other_store);
    for i in 0..30u32 {
        other.insert(&mut other_store, 100 - i, i);
    }
    assert!(other.validate(&other_store));
    let first = map.first_item_address(&store).unwrap();
    let leaf = first.id;
    assert_ne!(leaf, root);
    // a leaf alone is no tree under the root: it names a parent
    let mut third: BTreeMap<u32, u32> = BTreeMap::new_in(&store);
    third.insert(&mut store, 1000, 0);
    assert!(third.validate(&store));
    assert!(map.validate(&store));
    // a child taken out of the slab leaves a vacant cell below the root
    assert!(store.remove(leaf).is_some());
    assert!(!map.validate(&store));
    assert!(third.validate(&store));
    let frozen = btree_store::copyable::BTreeMap::from(other);
    assert!(frozen.validate(&other_store));
    assert!(!frozen.validate(&empty));
}

#[test]
fn the_next_item_is_found_from_every_place_of_a_node() {
    let mut store = Store::new();
    let mut map = BTreeMap::new_in(&store);
    for i in 0..30u32 {
        map.insert(&mut store, i * 2, i);
    }
    let root = map.root_id().unwrap();
    let count = map.node(&store, root).item_count();
    let first_in_root = *map.node(&store, root).item(0).unwrap().key();
    let last_in_root = *map.node(&store, root).item(count - 1).unwrap().key();
    // before the first item of the root: the least key of all
    let front = Address::new(root, Offset::before());
    let next = map.next_item_address(&store, front).unwrap();
    assert_eq!(*map.item(&store, next).unwrap().key(), 0);
    let next = map.next_item_or_back_address(&store, front).unwrap();
    assert_eq!(*map.item(&store, next).unwrap().key(), 0);
    // the end of the root: the first key below its last child
    let end = Address::new(root, Offset::new(count));
    let next = map.next_item_address(&store, end).unwrap();
    assert_eq!(*map.item(&store, next).unwrap().key(), last_in_root + 2);
    // before the first item of the second leaf: its first item
    let second = map.node(&store, root).child_id(1);
    let front = Address::new(second, Offset::before());
    let next = map.next_item_address(&store, front).unwrap();
    assert_eq!((next.id, next.offset.value()), (second, Some(0)));
    assert_eq!(*map.item(&store, next).unwrap().key(), first_in_root + 2);
    // the end of the last leaf: no item follows, and the place stays
    let last = map.last_valid_address(&store);
    assert!(map.next_item_address(&store, last).is_none());
    let back = map.next_item_or_back_address(&store, last).unwrap();
    assert_eq!((back.id, back.offset.value()), (last.id, last.offset.value()));
    assert!(map.next_item_address(&store, Address::nowhere()).is_none());
    assert!(map.next_item_or_back_address(&store, Address::nowhere()).is_none());
}

#[test]
fn rebalance_tells_where_the_parts_of_a_split_node_stand() {
    // a full leaf under a root that has room
    let mut store = OwnedStore::new();
    let mut map = BTreeMap::new_in(&store);
    for i in 0..15u32 {
        map.insert(&mut store, i * 10, i);
    }
    let root = map.root_id().unwrap();
    let before = map.node(&store, root).item_count();
    let children = map.node(&store, root).child_count();
    let last_leaf = map.node(&store, root).child_id(children - 1);
    let mut key = 141;
    while map.node(&store, last_leaf).item_count() < 7 {
        map.insert(&mut store, key, 0);
        key += 1;
    }
    assert_eq!(map.root_id(), Some(root));
    assert_eq!(map.node(&store, root).item_count(), before);
    let gap = map.address_of(&store, &139).unwrap_err();
    assert_eq!(gap.id, last_leaf);
    let offset = gap.offset.value().unwrap();
    map.put_at(&mut store, gap, Item::new(139, 1));
    let r = map.rebalance(&mut store, last_leaf, gap);
    assert_eq!(map.root_id(), Some(root));
    assert_eq!(map.node(&store, root).item_count(), before + 1);
    assert_eq!(map.node(&store, last_leaf).item_count(), 3);
    let right = map.node(&store, root).child_id(children);
    assert_eq!(map.node(&store, right).item_count(), 4);
    assert_eq!(map.node(&store, right).parent(), Some(root));
    if offset < 3 {
        assert_eq!((r.id, r.offset.value()), (last_leaf, Some(offset)));
    } else if offset == 3 {
        assert_eq!((r.id, r.offset.value()), (root, Some(children - 1)));
    } else {
        assert_eq!((r.id, r.offset.value()), (right, Some(offset - 4)));
    }
    assert_eq!(*map.item(&store, r).unwrap().key(), 139);
    assert!(map.validate(&store));
}

#[test]
fn values_change_in_a_range_and_in_the_whole_map() {
    use_range();
}

fn use_range() {
    let mut store = Store::new();
    let mut map = BTreeMap::new_in(&store);
    for i in 0..50u32 {
        map.insert(&mut store, i, i);
    }
    map.range_mut(&mut store, Bound::Included(&10), Bound::Excluded(&20), |k, v| k + v + 1000);
    for i in 0..50u32 {
        let expected = if (10..20).contains(&i) { 2 * i + 1000 } else { i };
        assert_eq!(map.get(&store, &i), Some(&expected));
    }
    map.range_mut(&mut store, Bound::Excluded(&48), Bound::Unbounded, |_, _| 7);
    assert_eq!(map.get(&store, &48), Some(&48));
    assert_eq!(map.get(&store, &49), Some(&7));
    map.range_mut(&mut store, Bound::Included(&60), Bound::Included(&70), |_, _| 8);
    let places = map.range_addresses(&store, Bound::Included(&3), Bound::Included(&5));
    let keys: Vec<u32> = places.iter().map(|a| *map.item(&store, *a).unwrap().key()).collect();
    assert_eq!(keys, vec![3, 4, 5]);
    assert!(map.range_addresses(&store, Bound::Excluded(&5), Bound::Excluded(&6)).is_empty());
    map.values_mut(&mut store, |v| v % 10);
    assert_eq!(map.get(&store, &15), Some(&0));
    assert_eq!(map.get(&store, &49), Some(&7));
    assert_eq!(map.get(&store, &3), Some(&3));
    assert_eq!(map.len(), 50);
    assert!(map.validate(&store));
}

#[test]
fn append_that_cannot_fail() {
    let mut store = Store::new();
    let mut a = BTreeMap::new_in(&store);
    let mut b = BTreeMap::new_in(&store);
    let mut third = BTreeMap::new_in(&store);
    for k in [1u32, 2, 3] {
        a.insert(&mut store, k, "a");
    }
    for k in [3u32, 4, 5] {
        b.insert(&mut store, k, "b");
    }
    third.insert(&mut store, 9, "c");
    assert!(a.try_append(&mut store, &mut b));
    assert_eq!(a.to_vec(&store), vec![(&1, &"a"), (&2, &"a"), (&3, &"b"), (&4, &"b"), (&5, &"b")]);
    assert!(b.is_empty());
    assert_eq!(third.to_vec(&store), vec![(&9, &"c")]);
    assert!(a.try_append(&mut store, &mut b));
    assert_eq!(a.len(), 5);
}

#[test]
fn rebalance_splits_upwards_as_far_as_the_root() {
    let mut store = OwnedStore::new();
    let mut map = BTreeMap::new_in(&store);
    let mut next = 0u32;
    loop {
        map.insert(&mut store, next, next);
        next += 1;
        let root = map.root_id().unwrap();
        let node = map.node(&store, root);
        if node.child_count() == 8 {
            let last = node.child_id(7);
            if map.node(&store, last).item_count() == 7 {
                break;
            }
        }
        assert!(next < 1000);
    }
    let old_root = map.root_id().unwrap();
    assert_eq!(map.height(&store), 2);
    let leaf = map.node(&store, old_root).child_id(7);
    let gap = map.address_of(&store, &next).unwrap_err();
    assert_eq!((gap.id, gap.offset.value()), (leaf, Some(7)));
    let capacity_before = (0..1000).filter(|&i| store.get(i).is_some()).count();
    map.put_at(&mut store, gap, Item::new(next, next));
    let r = map.rebalance(&mut store, leaf, gap);
    // the leaf keeps what stood before the median; the place lies in a new node
    assert_eq!(map.node(&store, leaf).item_count(), 3);
    assert_ne!(r.id, leaf);
    assert_eq!(r.offset.value(), Some(3));
    assert_eq!(map.node(&store, r.id).item_count(), 4);
    assert_eq!(*map.item(&store, r).unwrap().key(), next);
    // the root was split as well: a new root with one item and two children
    let top = map.root_id().unwrap();
    assert_ne!(top, old_root);
    assert_eq!(map.node(&store, top).item_count(), 1);
    assert_eq!(map.node(&store, top).child_count(), 2);
    assert_eq!(map.node(&store, top).child_id(0), old_root);
    assert_eq!(map.node(&store, old_root).parent(), Some(top));
    assert_eq!(map.height(&store), 3);
    let capacity_after = (0..1000).filter(|&i| store.get(i).is_some()).count();
    assert_eq!(capacity_after, capacity_before + 3);
    assert!(map.validate(&store));
    assert_eq!(map.len(), next as usize + 1);
}

#[test]
fn inserting_without_a_split_changes_one_leaf() {
    let mut store = Store::new();
    let mut map = BTreeMap::new_in(&store);
    assert_eq!(map.insert(&mut store, 5u32, 50u32), None);
    let root = map.root_id().unwrap();
    assert!(map.node(&store, root).is_leaf());
    assert_eq!(map.node(&store, root).parent(), None);
    assert_eq!(map.node(&store, root).item_count(), 1);
    for k in [1u32, 9, 3, 7, 2, 8] {
        map.insert(&mut store, k, k);
        assert_eq!(map.root_id(), Some(root));
    }
    assert_eq!(map.node(&store, root).item_count(), 7);
    assert_eq!(store.capacity(), 1);
    assert_eq!(map.insert(&mut store, 3, 33), Some(3));
    assert_eq!(map.root_id(), Some(root));
    assert_eq!(store.capacity(), 1);
}
