use btree_store::set::BTreeSet;
use btree_store::store::Store;

fn filled(store: &mut Store<btree_store::node::Node<u32, ()>>, elements: &[u32]) -> BTreeSet<u32> {
    let mut set = BTreeSet::new_in(store);
    for e in elements {
        set.insert(store, *e);
    }
    set
}

#[test]
fn set_insert_contains_remove() {
    let mut store = Store::new();
    let mut set = BTreeSet::new_in(&store);
    assert!(set.insert(&mut store, 3));
    assert!(set.insert(&mut store, 1));
    assert!(!set.insert(&mut store, 3));
    assert_eq!(set.len(), 2);
    assert!(set.contains(&store, &1));
    assert!(!set.contains(&store, &2));
    assert_eq!(set.get(&store, &3), Some(&3));
    assert_eq!(set.first(&store), Some(&1));
    assert_eq!(set.last(&store), Some(&3));
    assert!(set.remove(&mut store, &1));
    assert!(!set.remove(&mut store, &1));
    assert_eq!(set.take(&mut store, &3), Some(3));
    assert!(set.is_empty());
    assert_eq!(set.replace(&mut store, 9), None);
    assert_eq!(set.replace(&mut store, 9), Some(9));
    assert_eq!(set.pop_first(&mut store), Some(9));
    assert_eq!(set.pop_last(&mut store), None);
}

#[test]
fn set_operations_come_in_order() {
    let mut store = Store::new();
    let a = filled(&mut store, &[1, 2, 3, 5, 8, 13, 21]);
    let b = filled(&mut store, &[2, 3, 4, 8, 16, 21, 32]);

    let mut union = a.union(&store, &b, &store);
    let mut seen = Vec::new();
    while let Some(e) = union.next() {
        seen.push(*e);
    }
    assert_eq!(seen, vec![1, 2, 3, 4, 5, 8, 13, 16, 21, 32]);

    let mut intersection = a.intersection(&store, &b, &store);
    let mut seen = Vec::new();
    while let Some(e) = intersection.next() {
        seen.push(*e);
    }
    assert_eq!(seen, vec![2, 3, 8, 21]);

    let mut difference = a.difference(&store, &b, &store);
    let mut seen = Vec::new();
    while let Some(e) = difference.next() {
        seen.push(*e);
    }
    assert_eq!(seen, vec![1, 5, 13]);

    let mut symmetric = a.symmetric_difference(&store, &b, &store);
    let mut seen = Vec::new();
    while let Some(e) = symmetric.next() {
        seen.push(*e);
    }
    assert_eq!(seen, vec![1, 4, 5, 13, 16, 32]);

    assert!(!a.is_disjoint(&store, &b, &store));
    assert!(!a.is_subset(&store, &b, &store));
    let c = filled(&mut store, &[2, 8]);
    assert!(c.is_subset(&store, &a, &store));
    assert!(a.is_superset(&store, &c, &store));
    let d = filled(&mut store, &[100, 200]);
    assert!(a.is_disjoint(&store, &d, &store));
}

#[test]
fn set_drain_retain_and_append() {
    let mut store = Store::new();
    let all: Vec<u32> = (0..50).collect();
    let mut set = filled(&mut store, &all);
    let drained = set.drain_filter(&mut store, |e: &u32| e % 5 == 0);
    assert_eq!(drained, vec![0, 5, 10, 15, 20, 25, 30, 35, 40, 45]);
    set.retain(&mut store, |e: &u32| e % 2 == 1);
    let left: Vec<u32> = set.to_vec(&store).into_iter().copied().collect();
    let expected: Vec<u32> = (0..50).filter(|e| e % 5 != 0 && e % 2 == 1).collect();
    assert_eq!(left, expected);
    let mut other = filled(&mut store, &[1, 2, 1000]);
    set.append(&mut store, &mut other);
    assert!(other.is_empty());
    assert!(set.contains(&store, &1000));
    assert!(set.contains(&store, &2));
    assert_eq!(set.len(), expected.len() + 2);
    let elements = set.into_vec(&mut store);
    assert_eq!(elements.len(), expected.len() + 2);
    assert_eq!(elements[0], 1);
    assert_eq!(elements[1], 2);
}
