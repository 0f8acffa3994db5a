use btree_store::addr::{Address, Offset};
use btree_store::arena::TypedArena;
use btree_store::cursor::Cursor;
use btree_store::entry::Entry;
use btree_store::map::BTreeMap;
use btree_store::node::{Balance, Item, Node};
use btree_store::order::Relation;
use btree_store::owned;
use btree_store::ptr_eq::PtrEq;
use btree_store::range::{is_valid_range, Bound};
use btree_store::slab::{Index, OwnedSlab, Slab, SlabView};
use btree_store::store::{OwnedStore, Store};

#[test]
fn slab_uses_vacated_cells_before_it_grows() {
    let mut store = Store::new();
    let a = store.insert("a");
    let b = store.insert("b");
    let c = store.insert("c");
    assert_eq!((a, b, c), (0, 1, 2));
    assert_eq!(store.remove(b), Some("b"));
    assert_eq!(store.remove(b), None);
    assert_eq!(store.get(b), None);
    assert_eq!(store.remove(a), Some("a"));
    // the cell vacated last is used first
    assert_eq!(store.insert("d"), a);
    assert_eq!(store.insert("e"), b);
    assert_eq!(store.insert("f"), 3);
    assert_eq!(store.get(c), Some(&"c"));
    *store.get_mut(c).unwrap() = "C";
    assert_eq!(store.get(c), Some(&"C"));
    assert_eq!(store.get_mut(17), None);
    assert!(!store.clear_fast());
    assert_eq!(store.capacity(), 4);
    store.clear();
    assert_eq!(store.capacity(), 0);
    assert_eq!(store.get(0), None);
}

#[test]
fn owned_slab_is_emptied_at_once() {
    let mut store = OwnedStore::new();
    let a = store.insert(1u8);
    let b = store.insert(2u8);
    assert_eq!(store.get(a), Some(&1));
    assert_eq!(store.remove(b), Some(2));
    assert!(store.clear_fast());
    assert_eq!(store.get(a), None);
    store.insert(3);
    store.clear();
    assert_eq!(store.get(0), None);
}

#[test]
fn arena_cells_keep_their_places() {
    let mut arena = TypedArena::new();
    assert_eq!(arena.len(), 0);
    assert_eq!(arena.allocate("a"), 0);
    assert_eq!(arena.allocate("b"), 1);
    assert_eq!(arena.allocate_from_iter(vec!["c", "d"]), 2);
    assert_eq!(arena.len(), 4);
    assert_eq!(arena.get(3), Some(&"d"));
    assert_eq!(arena.get(4), None);
    assert_eq!(arena.replace(1, "B"), "b");
    *arena.get_mut(0).unwrap() = "A";
    let mut iter = arena.iter();
    assert_eq!(iter.remaining(), 4);
    assert!(iter.has_next());
    assert_eq!(iter.next_ref(), Some(&"A"));
    assert_eq!(iter.next_ref(), Some(&"B"));
    assert_eq!(iter.remaining(), 2);
    let mut places = arena.ptr_iter();
    assert_eq!(places.next_ptr(), Some(0));
    assert_eq!(places.next_ptr(), Some(1));
    assert_eq!(places.next_ptr(), Some(2));
    assert_eq!(places.next_ptr(), Some(3));
    assert_eq!(places.next_ptr(), None);
    assert!(!places.has_next());
    assert_eq!(arena.into_vec(), vec!["A", "B", "c", "d"]);
}

#[test]
fn index_that_names_no_cell() {
    assert_eq!(<usize as Index>::nowhere(), usize::MAX);
    assert!(usize::MAX.is_nowhere());
    assert!(!0usize.is_nowhere());
    assert!(Address::nowhere().is_nowhere());
    assert!(!Address::new(3, Offset::new(0)).is_nowhere());
    assert_eq!(Offset::before().value(), None);
    assert!(Offset::before().is_before());
    let mut offset = Offset::before();
    offset.incr();
    assert_eq!(offset.value(), Some(0));
    offset.incr();
    assert_eq!(offset.unwrap(), 1);
    offset.decr();
    offset.decr();
    assert!(offset.is_before());
    assert!(3usize.ptr_eq(&3));
    assert!(!Some(3usize).ptr_eq(&None));
    assert!((1usize, Some(2u16)).ptr_eq(&(1, Some(2))));
    assert!(!(1usize, Some(2u16)).ptr_eq(&(1, Some(3))));
}

#[test]
fn node_primitives() {
    let mut leaf: Node<u32, &str> = Node::leaf(None, Item::new(5, "five"));
    leaf.insert(0, Item::new(1, "one"), None);
    leaf.insert(2, Item::new(9, "nine"), None);
    assert_eq!(leaf.item_count(), 3);
    assert!(leaf.is_leaf());
    assert_eq!(leaf.offset_of(&5), Ok(1));
    assert_eq!(leaf.offset_of(&7), Err((2, None)));
    assert_eq!(leaf.offset_of(&0), Err((0, None)));
    assert_eq!(leaf.get(&9), Ok(Some(&"nine")));
    assert_eq!(leaf.get(&8), Ok(None));
    assert_eq!(leaf.balance(), Balance::Balanced);
    assert!(leaf.pop_left().is_err());
    assert!(leaf.pop_right().is_err());
    assert_eq!(leaf.replace_value(1, "FIVE"), "five");
    for k in [11, 12, 13, 14, 15] {
        let at = leaf.item_count();
        leaf.insert(at, Item::new(k, "x"), None);
    }
    assert_eq!(leaf.balance(), Balance::Overflow);
    assert!(leaf.is_overflowing());
    let (offset, median, right) = leaf.split();
    assert_eq!(offset, 3);
    assert_eq!(median.into_pair(), (11, "x"));
    assert_eq!(leaf.item_count(), 3);
    assert_eq!(right.item_count(), 4);
    assert_eq!(right.first_item().map(|i| i.key), Some(12));
    assert_eq!(right.last_item().map(|i| i.key), Some(15));
    assert!(leaf.validate(None, None, None));
    assert!(leaf.validate(None, Some(&0), Some(&10)));
    assert!(!leaf.validate(None, Some(&1), None));
    assert!(!leaf.validate(Some(4), None, None));

    let mut inner: Node<u32, &str> = Node::binary(Some(7), 20, Item::new(50, "m"), 21);
    assert_eq!(inner.parent(), Some(7));
    assert_eq!(inner.child_count(), 2);
    assert_eq!(inner.child_id(1), 21);
    assert_eq!(inner.child_id_opt(2), None);
    assert_eq!(inner.child_index(21), Some(1));
    assert_eq!(inner.child_index(22), None);
    assert_eq!(inner.offset_of(&60), Err((1, Some(21))));
    assert_eq!(inner.get(&40), Err(20));
    assert_eq!(inner.separators(0), (None, Some(&50)));
    assert_eq!(inner.separators(1), (Some(&50), None));
    inner.push_left(Item::new(30, "l"), Some(19));
    inner.push_right(Item::new(70, "r"), Some(22));
    assert_eq!(inner.child_id(0), 19);
    assert_eq!(inner.child_id(3), 22);
    assert_eq!(inner.leaf_remove(1).map(|r| r.err()), Some(Some(20)));
    assert_eq!(inner.remove_rightmost_leaf().err(), Some(22));
    inner.set_parent(None);
    assert_eq!(inner.balance(), Balance::Balanced);
    let (at, left, right, separator, balance) = inner.merge(0, 1);
    assert_eq!((at, left, right), (0, 19, 20));
    assert_eq!(separator.into_pair(), (30, "l"));
    assert_eq!(balance, Balance::Underflow(false));
    let other: Node<u32, &str> = Node::binary(None, 30, Item::new(90, "z"), 31);
    assert_eq!(inner.append(Item::new(80, "s"), other), 2);
    assert_eq!(inner.item_count(), 4);
    assert_eq!(inner.child_count(), 5);
    let (item, child) = inner.pop_left().ok().unwrap();
    assert_eq!((item.key, child), (50, Some(19)));
    let empty_root: Node<u32, &str> = Node::stem(None, 4);
    assert_eq!(empty_root.balance(), Balance::Underflow(true));
    assert!(empty_root.is_underflowing());
    assert_eq!(inner.replace(0, Item::new(71, "a")).key, 70);
}

#[test]
fn addresses_go_through_the_map_in_order() {
    let mut store = Store::new();
    let mut map = BTreeMap::new_in(&store);
    assert_eq!(map.first_item_address(&store), None);
    assert!(map.first_back_address(&store).is_nowhere());
    assert!(map.last_valid_address(&store).is_nowhere());
    assert_eq!(map.address_of(&store, &1).err().map(|a| a.is_nowhere()), Some(true));
    for i in 0..200u32 {
        map.insert(&mut store, 2 * i, i);
    }
    assert!(map.validate(&store));
    assert_eq!(map.height(&store), 4);
    let mut addr = map.first_item_address(&store);
    let mut expected = 0;
    while let Some(a) = addr {
        assert_eq!(map.item(&store, a).unwrap().key, expected);
        expected += 2;
        addr = map.next_item_address(&store, a);
    }
    assert_eq!(expected, 400);
    let mut addr = map.last_item_address(&store);
    let mut expected = 398i64;
    while let Some(a) = addr {
        assert_eq!(map.item(&store, a).unwrap().key as i64, expected);
        expected -= 2;
        addr = map.previous_item_address(&store, a);
    }
    assert_eq!(expected, -2);
    // back addresses: every item is met once on the way from the first place to the last
    let mut addr = Some(map.first_back_address(&store));
    let mut items = 0;
    let mut last = None;
    while let Some(a) = addr {
        if map.item(&store, a).is_some() {
            items += 1;
        }
        last = Some(a);
        addr = map.next_back_address(&store, a);
    }
    assert_eq!(items, 200);
    assert_eq!(last.map(|a| a.id), map.root_id());
    // front addresses: the same from the last item backwards
    let mut addr = map.last_item_address(&store);
    let mut items = 0;
    while let Some(a) = addr {
        if map.item(&store, a).is_some() {
            items += 1;
        }
        addr = map.previous_front_address(&store, a);
    }
    assert_eq!(items, 200);
    // a key that the map does not have
    let gap = map.address_of(&store, &101).err().unwrap();
    let at = map.normalize(&store, gap).unwrap();
    assert_eq!(map.item(&store, at).unwrap().key, 102);
    assert_eq!(map.leaf_address(&store, gap), gap);
    let put = map.insert_at(&mut store, gap, Item::new(101, 0));
    assert_eq!(map.item(&store, put).unwrap().key, 101);
    assert_eq!(map.rebalance(&mut store, put.id, put), put);
    let (item, next) = map.remove_at(&mut store, put).unwrap();
    assert_eq!(item.into_pair(), (101, 0));
    let next = map.normalize(&store, next).unwrap();
    assert_eq!(map.item(&store, next).unwrap().key, 102);
    assert_eq!(map.replace_at(&mut store, next, 102, 7), (102, 51));
    assert_eq!(map.replace(&mut store, 102, 8), Some((102, 7)));
    assert_eq!(map.replace(&mut store, 103, 9), None);
    let end = map.last_valid_address(&store);
    assert_eq!(map.item(&store, end).map(|i| i.key), None);
    assert_eq!(map.normalize(&store, end), None);
    assert_eq!(map.next_item_or_back_address(&store, map.last_item_address(&store).unwrap()), Some(end));
    assert!(map.validate(&store));
}

#[test]
fn cursor_moves_both_ways() {
    let mut store = Store::new();
    let mut map = BTreeMap::new_in(&store);
    for i in 0..30u32 {
        map.insert(&mut store, i, i * i);
    }
    let mut cursor = Cursor::new_at_start(&map, &store);
    for i in 0..30u32 {
        assert!(cursor.is_attached());
        assert_eq!(cursor.key_value(&map, &store), Some((&i, &(i * i))));
        cursor.advance(&map, &store);
    }
    assert!(!cursor.is_attached());
    let mut cursor = Cursor::new_at_end(&map, &store);
    for i in (0..30u32).rev() {
        assert_eq!(cursor.key_value(&map, &store), Some((&i, &(i * i))));
        cursor.advance_back(&map, &store);
    }
    assert_eq!(cursor.address(), None);
    let mut cursor = Cursor::new(map.address_of(&store, &7).ok());
    cursor.detach();
    assert_eq!(cursor.key_value(&map, &store), None);
    assert!(!Cursor::new_detached().is_attached());
}

#[test]
fn entries() {
    let mut store = Store::new();
    let mut map = BTreeMap::new_in(&store);
    let entry = map.entry(&store, 3);
    assert!(matches!(entry, Entry::Vacant(_)));
    let at = entry.or_insert(&mut map, &mut store, "three");
    assert_eq!(map.item(&store, at).unwrap().value, "three");
    let entry = map.entry(&store, 3);
    let at = entry.or_insert(&mut map, &mut store, "III");
    assert_eq!(map.item(&store, at).unwrap().value, "three");
    let entry = map.entry(&store, 4).and_modify(&mut map, &mut store, |_: &&str| "never");
    entry.or_insert_with(&mut map, &mut store, || "four");
    map.entry(&store, 4).and_modify(&mut map, &mut store, |_: &&str| "FOUR");
    assert_eq!(map.get(&store, &4), Some(&"FOUR"));
    map.entry(&store, 5).or_insert_with_key(&mut map, &mut store, |k: &i32| if *k == 5 { "five" } else { "?" });
    assert_eq!(map.get(&store, &5), Some(&"five"));
    match map.entry(&store, 5) {
        Entry::Occupied(mut occupied) => {
            assert_eq!(occupied.key(&map, &store), &5);
            assert_eq!(occupied.get(&map, &store), &"five");
            assert_eq!(occupied.insert(&mut map, &mut store, "5"), "five");
            assert_eq!(occupied.remove_entry(&mut map, &mut store), (5, "5"));
        }
        Entry::Vacant(_) => panic!("the key is there"),
    }
    match map.entry(&store, 6) {
        Entry::Vacant(vacant) => {
            assert_eq!(vacant.key(), &6);
            assert_eq!(vacant.into_key(), 6);
        }
        Entry::Occupied(_) => panic!("the key is not there"),
    }
    let first = map.first_entry(&store).unwrap();
    assert_eq!(first.remove(&mut map, &mut store), "three");
    let last = map.last_entry(&store).unwrap();
    assert_eq!(last.get(&map, &store), &"FOUR");
    assert_eq!(map.len(), 1);
}

#[test]
fn extend_compare_and_owned_maps() {
    let mut store = Store::new();
    let mut a = BTreeMap::from_vec(&mut store, vec![(2, "b"), (1, "a"), (2, "B")]);
    assert_eq!(a.to_vec(&store), vec![(&1, &"a"), (&2, &"B")]);
    a.extend(&mut store, vec![(3, "c"), (1, "A")]);
    assert_eq!(a.to_vec(&store), vec![(&1, &"A"), (&2, &"B"), (&3, &"c")]);
    let mut other_store = Store::new();
    let mut b = BTreeMap::new_in(&other_store);
    for (k, v) in [(3, "c"), (2, "B"), (1, "A")] {
        b.insert(&mut other_store, k, v);
    }
    assert!(a.same_entries(&store, &b, &other_store));
    b.insert(&mut other_store, 2, "b");
    assert!(!a.same_entries(&store, &b, &other_store));
    b.remove(&mut other_store, &2);
    assert!(!a.same_entries(&store, &b, &other_store));
    b.insert(&mut other_store, 4, "B");
    assert!(!a.same_entries(&store, &b, &other_store));

    let mut first = owned::BTreeMap::new_in(OwnedStore::new());
    let mut second = owned::BTreeMap::new_in(OwnedStore::new());
    for i in 0..50u32 {
        assert_eq!(first.insert(i, i), None);
        assert_eq!(second.insert(i + 25, i + 1000), None);
    }
    assert_eq!(first.remove(&0), Some(0));
    first.append1(&mut second);
    assert!(second.is_empty());
    assert_eq!(first.len(), 74);
    assert_eq!(first.get(&30), Some(&1005));
    assert_eq!(first.get(&10), Some(&10));
    assert!(first.contains_key(&74));
    assert_eq!(first.to_vec().len(), 74);
    first.clear();
    assert!(first.is_empty());
    let store = first.into_store_do_clear();
    assert!(store.get(0).is_none());
    let kept = second.into_store_dont_clear();
    assert!(kept.get(0).is_none());
}

#[test]
fn bounds_that_make_no_range() {
    assert!(is_valid_range(&Bound::Included(&1), &Bound::Included(&1)));
    assert!(is_valid_range(&Bound::Included(&1), &Bound::Excluded(&1)));
    assert!(is_valid_range(&Bound::Excluded(&1), &Bound::Included(&1)));
    assert!(!is_valid_range(&Bound::Excluded(&1), &Bound::Excluded(&1)));
    assert!(!is_valid_range(&Bound::Included(&2), &Bound::Included(&1)));
    assert!(is_valid_range(&Bound::Excluded(&1), &Bound::Excluded(&2)));
    assert!(is_valid_range(&Bound::Unbounded, &Bound::Excluded(&2)));
    assert!(is_valid_range(&Bound::Included(&2), &Bound::<&i32>::Unbounded));
}

#[test]
fn sizes_around_the_fan_out() {
    // none, one, one less than a node holds, as many, one more
    for size in [0usize, 1, 7, 8, 9, 64] {
        let mut store = Store::new();
        let mut map = BTreeMap::new_in(&store);
        for i in 0..size {
            map.insert(&mut store, i, i);
        }
        assert_eq!(map.len(), size);
        assert!(map.validate(&store));
        assert_eq!(map.first_key_value(&store).map(|e| *e.0), if size > 0 { Some(0) } else { None });
        assert_eq!(map.last_key_value(&store).map(|e| *e.0), size.checked_sub(1));
        // the least and the greatest key go first
        if size > 1 {
            assert_eq!(map.remove(&mut store, &(size - 1)), Some(size - 1));
            assert_eq!(map.remove(&mut store, &0), Some(0));
            assert!(map.validate(&store));
            assert_eq!(map.insert(&mut store, 0, 0), None);
            assert_eq!(map.insert(&mut store, size - 1, size - 1), None);
        }
        for i in 0..size {
            assert_eq!(map.remove(&mut store, &i), Some(i));
            assert!(map.validate(&store));
        }
        assert_eq!(map.root_id(), None);
        assert_eq!(map.height(&store), 0);
    }
}

#[test]
fn update_at_an_address_and_below_a_node() {
    let mut store = Store::new();
    let mut map = BTreeMap::new_in(&store);
    for i in 0..40u32 {
        map.insert(&mut store, i, i);
    }
    let at = map.address_of(&store, &17).ok().unwrap();
    let seen = map.update_at(&mut store, at, |v: u32| (Some(v + 100), v));
    assert_eq!(seen, 17);
    assert_eq!(map.get(&store, &17), Some(&117));
    let at = map.address_of(&store, &17).ok().unwrap();
    let seen = map.update_at(&mut store, at, |v: u32| (None, v));
    assert_eq!(seen, 117);
    assert!(!map.contains_key(&store, &17));
    let root = map.root_id().unwrap();
    assert_eq!(map.update_in(&mut store, root, 17, |v: Option<u32>| (Some(1), v)), None);
    assert_eq!(map.update_in(&mut store, root, 17, |v: Option<u32>| (None, v)), Some(1));
    assert_eq!(map.len(), 39);
    assert!(map.validate(&store));
}

#[test]
fn peeking_and_default_entries() {
    let mut store = Store::new();
    let mut map: BTreeMap<u8, u64> = BTreeMap::new_in(&store);
    let entry = map.entry(&store, 4);
    assert_eq!(entry.key(&map, &store), &4);
    let at = entry.or_default(&mut map, &mut store);
    assert_eq!(map.item(&store, at).unwrap().as_pair(), (&4, &0));
    let entry = map.entry(&store, 4);
    assert_eq!(entry.key(&map, &store), &4);
    assert_eq!(entry.address(), at);
    map.insert(&mut store, 9, 90);
    let mut iter = map.iter(&store);
    assert_eq!(iter.peek(), Some((&4, &0)));
    assert_eq!(iter.peek_back(), Some((&9, &90)));
    assert_eq!(iter.size_hint(), (2, Some(2)));
    iter.next();
    assert_eq!(iter.peek_back(), Some((&9, &90)));
    iter.next_back();
    assert_eq!(iter.peek(), None);
    assert_eq!(iter.peek_back(), None);
}

#[test]
fn children_of_a_node_in_order() {
    let mut inner: Node<u32, ()> = Node::binary(None, 10, Item::new(5, ()), 11);
    inner.push_right(Item::new(7, ()), Some(12));
    let mut children = inner.children();
    assert_eq!(children.next(), Some(10));
    assert_eq!(children.next(), Some(11));
    assert_eq!(children.next(), Some(12));
    assert_eq!(children.next(), None);
    let leaf: Node<u32, ()> = Node::leaf(Some(1), Item::new(5, ()));
    assert_eq!(leaf.children().next(), None);
}

#[test]
fn maps_compare_entry_by_entry() {
    let build = |store: &mut Store<Node<u32, u32>>, entries: &[(u32, u32)]| {
        let mut map = BTreeMap::new_in(&*store);
        for &(k, v) in entries {
            map.insert(store, k, v);
        }
        map
    };
    let mut store = Store::new();
    let empty = build(&mut store, &[]);
    let a = build(&mut store, &[(1, 10), (2, 20), (3, 30)]);
    let same = build(&mut store, &[(3, 30), (1, 10), (2, 20)]);
    let shorter = build(&mut store, &[(1, 10), (2, 20)]);
    let later_key = build(&mut store, &[(1, 10), (4, 0)]);
    let greater_value = build(&mut store, &[(1, 10), (2, 21)]);
    assert_eq!(empty.compare_entries(&store, &empty, &store), Relation::Equal);
    assert_eq!(a.compare_entries(&store, &same, &store), Relation::Equal);
    assert_eq!(empty.compare_entries(&store, &a, &store), Relation::Less);
    assert_eq!(a.compare_entries(&store, &empty, &store), Relation::Greater);
    assert_eq!(shorter.compare_entries(&store, &a, &store), Relation::Less);
    assert_eq!(a.compare_entries(&store, &shorter, &store), Relation::Greater);
    assert_eq!(a.compare_entries(&store, &later_key, &store), Relation::Less);
    assert_eq!(later_key.compare_entries(&store, &a, &store), Relation::Greater);
    assert_eq!(a.compare_entries(&store, &greater_value, &store), Relation::Less);
    assert_eq!(greater_value.compare_entries(&store, &a, &store), Relation::Greater);
    assert_eq!(greater_value.compare_entries(&store, &later_key, &store), Relation::Less);

    // a hundred entries against the same with one value raised at the end
    let many: Vec<(u32, u32)> = (0..100).map(|i| (i, i)).collect();
    let mut raised = many.clone();
    raised[99].1 = 100;
    let m = build(&mut store, &many);
    let r = build(&mut store, &raised);
    assert_eq!(m.compare_entries(&store, &r, &store), Relation::Less);
    assert_eq!(r.compare_entries(&store, &m, &store), Relation::Greater);
    assert_eq!(m.compare_entries(&store, &m, &store), Relation::Equal);
}

#[test]
fn keys_and_values_leave_the_map_in_key_order() {
    let mut store = Store::with_capacity(16);
    assert_eq!(store.capacity(), 0);
    let mut map = BTreeMap::new_in(&store);
    for k in [5u32, 1, 4, 2, 3, 9, 8, 7, 6, 0] {
        map.insert(&mut store, k, k * 10);
    }
    let root = map.root_id().unwrap();
    assert_eq!(map.get_in(&store, &4, root), Some(&40));
    assert_eq!(map.get_in(&store, &11, root), None);
    let mut other = BTreeMap::new_in(&store);
    for k in [3u32, 1, 2] {
        other.insert(&mut store, k, k + 100);
    }
    assert_eq!(map.into_keys(&mut store), vec![0, 1, 2, 3, 4, 5, 6, 7, 8, 9]);
    assert_eq!(other.to_vec(&store), vec![(&1, &101), (&2, &102), (&3, &103)]);
    assert_eq!(other.into_values(&mut store), vec![101, 102, 103]);
    let empty: BTreeMap<u32, u32> = BTreeMap::new_in(&store);
    assert_eq!(empty.into_keys(&mut store), Vec::<u32>::new());
    let mut arena = TypedArena::with_capacity(4);
    assert_eq!(arena.len(), 0);
    assert_eq!(arena.allocate(7), 0);
}
