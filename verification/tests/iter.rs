use btree_store::map::BTreeMap;
use btree_store::set::BTreeSet;
use btree_store::store::{BTreeStore, Store};
use std::{cell::Cell, rc::Rc};

struct Element {
    /// Drop counter.
    counter: Rc<Cell<usize>>,
    value: i32,
}

impl Element {
    pub fn new(counter: &Rc<Cell<usize>>, value: i32) -> Self {
        Element {
            counter: counter.clone(),
            value,
        }
    }

    pub fn inner(&self) -> i32 {
        self.value
    }
}

impl Drop for Element {
    fn drop(&mut self) {
        let c = self.counter.get();
        self.counter.set(c + 1);
    }
}

fn hundred(counter: &Rc<Cell<usize>>, store: &mut BTreeStore<i32, Element>) -> BTreeMap<i32, Element> {
    let mut map = BTreeMap::new_in(store);
    for i in 0..100 {
        map.insert(store, i, Element::new(counter, i));
    }
    map
}

#[test]
pub fn iter() {
    let mut store = Store::new();
    let mut map = BTreeMap::new_in(&store);
    for i in 0..10 {
        map.insert(&mut store, i, i);
    }

    let mut i = 0;
    for (&key, &value) in map.to_vec(&store) {
        assert_eq!(key, i);
        assert_eq!(value, i);
        i += 1;
    }

    assert_eq!(i, 10)
}

#[test]
pub fn into_iter() {
    let counter = Rc::new(Cell::new(0));
    let mut store = Store::new();
    let map = hundred(&counter, &mut store);

    let mut it = map.into_iter();
    while let Some((key, value)) = it.next(&mut store) {
        assert_eq!(key, value.inner());
    }

    assert_eq!(counter.get(), 100);
}

#[test]
pub fn into_iter_rev() {
    let counter = Rc::new(Cell::new(0));
    let mut store = Store::new();
    let map = hundred(&counter, &mut store);

    let mut it = map.into_iter();
    let mut expected = 99;
    while let Some((key, value)) = it.next_back(&mut store) {
        assert_eq!(key, value.inner());
        assert_eq!(key, expected);
        expected -= 1;
    }

    assert_eq!(counter.get(), 100);
}

#[test]
pub fn into_iter_both_ends1() {
    let counter = Rc::new(Cell::new(0));
    let mut store = Store::new();
    let map = hundred(&counter, &mut store);

    let mut it = map.into_iter();
    while let Some((key, value)) = it.next(&mut store) {
        assert_eq!(key, value.inner());

        let (key, value) = it.next_back(&mut store).unwrap();
        assert_eq!(key, value.inner());
    }

    assert_eq!(counter.get(), 100);
}

#[test]
pub fn into_iter_both_ends2() {
    let counter = Rc::new(Cell::new(0));
    let mut store = Store::new();
    let map = hundred(&counter, &mut store);

    let mut it = map.into_iter();
    while let Some((key, value)) = it.next_back(&mut store) {
        assert_eq!(key, value.inner());

        let (key, value) = it.next(&mut store).unwrap();
        assert_eq!(key, value.inner());
    }

    assert_eq!(counter.get(), 100);
}

#[test]
fn iter_mut() {
    let mut store = Store::new();
    let mut map = BTreeMap::new_in(&store);

    for i in 0..10 {
        map.insert(&mut store, i, i);
    }

    map.iter_mut(&mut store, |k: &i32, v: &i32| *v + *k);

    for i in 0..10 {
        assert_eq!(map.get(&store, &i).unwrap(), &(i * 2));
    }
}

#[test]
fn keys() {
    let mut store = Store::new();
    let mut map = BTreeMap::new_in(&store);

    for i in 0..10 {
        map.insert(&mut store, i, i);
    }

    let mut keys = map.keys(&store);

    for i in 0..10 {
        assert_eq!(keys.next(), Some(&i));
    }

    assert_eq!(keys.next(), None);
}

#[test]
fn values() {
    let mut store = Store::new();
    let mut map = BTreeMap::new_in(&store);

    for i in 0..10 {
        map.insert(&mut store, i, i);
    }

    let mut values = map.values(&store);

    for i in 0..10 {
        assert_eq!(values.next(), Some(&i));
    }

    assert_eq!(values.next(), None);
}

#[test]
fn set_iter() {
    let mut store = Store::new();
    let mut set = BTreeSet::new_in(&store);

    for i in 0..10 {
        set.insert(&mut store, i);
    }

    let mut i = 0;
    for value in set.to_vec(&store) {
        assert_eq!(value, &i);
        i += 1;
    }

    assert_eq!(i, 10);
}

#[test]
fn set_into_iter() {
    #[derive(Clone, PartialEq, Eq, PartialOrd, Ord)]
    struct Counted {
        counter: Rc<Cell<usize>>,
        value: i32,
    }

    impl Drop for Counted {
        fn drop(&mut self) {
            let c = self.counter.get();
            self.counter.set(c + 1);
        }
    }

    let counter = Rc::new(Cell::new(0));
    let mut store = Store::new();
    let mut set = BTreeSet::new_in(&store);

    for i in 0..100 {
        set.insert(
            &mut store,
            Counted {
                counter: counter.clone(),
                value: i,
            },
        );
    }

    for value in set.into_vec(&mut store) {
        assert!(value.value < 100);
    }

    assert_eq!(counter.get(), 100);
}
