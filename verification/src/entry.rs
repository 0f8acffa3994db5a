//! Entries: the place of one key in a map, found once and then used to
//! read, fill or clear it.

use vstd::prelude::*;
use crate::addr::Address;
use crate::map::BTreeMap;
use crate::node::{Item, Node};
use crate::slab::{Slab, SlabView};
use crate::tree::{evolves, Cells};

verus! {

/// The place in a map of a key that the map does not have.
pub struct VacantEntry<K> {
    key: K,
    addr: Address,
}

/// The place in a map of a key that the map has.
pub struct OccupiedEntry {
    addr: Address,
}

/// The place of a key in a map, which the map has or does not have.
pub enum Entry<K> {
    Vacant(VacantEntry<K>),
    Occupied(OccupiedEntry),
}

impl<K: Ord> VacantEntry<K> {
    /// The key of the entry.
    pub closed spec fn spec_key(&self) -> K {
        self.key
    }

    /// The place at which the key would stand.
    pub closed spec fn spec_address(&self) -> Address {
        self.addr
    }

    /// The entry is the place of its key in `map`, which does not have the
    /// key.
    pub open spec fn valid<V>(&self, map: &BTreeMap<K, V>, cells: Cells<K, V>) -> bool {
        &&& !map@.dom().contains(self.spec_key())
        &&& if map.root().is_none() {
            self.spec_address().id == usize::MAX
        } else {
            map.is_gap_for(cells, self.spec_address(), self.spec_key()) && map.in_leaf(
                cells,
                self.spec_address(),
            )
        }
    }

    /// The place at which the key would stand.
    pub fn address(&self) -> (addr: Address)
        ensures
            addr == self.spec_address(),
    {
        self.addr
    }

    /// The key of the entry.
    pub fn key(&self) -> (key: &K)
        ensures
            *key == self.spec_key(),
    {
        &self.key
    }

    /// Gives the key back.
    pub fn into_key(self) -> (key: K)
        ensures
            key == self.spec_key(),
    {
        self.key
    }

    /// Binds `value` to the key of the entry. Returns the address of the new
    /// item.
    pub fn insert<V, S: Slab<Node<K, V>>>(self, map: &mut BTreeMap<K, V>, store: &mut S, value: V) -> (addr:
        Address)
        requires
            old(map).wf(old(store)),
            old(map)@.dom().len() < usize::MAX,
            self.valid(old(map), old(store).cells()),
        ensures
            final(map).wf(final(store)),
            final(map)@ == old(map)@.insert(self.spec_key(), value),
            final(map).is_item_address(final(store).cells(), addr),
            final(map).item_of(final(store).cells(), addr).key == self.spec_key(),
            evolves(old(store).cells(), final(store).cells(), old(map).nodes(), final(map).nodes()),
    {
        map.insert_exactly_at(store, self.addr, Item::new(self.key, value), None)
    }
}

impl OccupiedEntry {
    /// The address of the item of the entry.
    pub closed spec fn spec_address(&self) -> Address {
        self.addr
    }

    /// The entry is the place of an item of `map`.
    pub open spec fn valid<K: Ord, V>(&self, map: &BTreeMap<K, V>, cells: Cells<K, V>) -> bool {
        map.is_item_address(cells, self.spec_address())
    }

    /// The address of the item of the entry.
    pub fn address(&self) -> (addr: Address)
        ensures
            addr == self.spec_address(),
    {
        self.addr
    }

    /// The key of the entry.
    pub fn key<'a, K: Ord, V, S: SlabView<Node<K, V>>>(&self, map: &BTreeMap<K, V>, store: &'a S) -> (key: &'a K)
        where
            V: 'a,
        requires
            map.wf(store),
            self.valid(map, store.cells()),
        ensures
            *key == map.item_of(store.cells(), self.spec_address()).key,
            map@.dom().contains(*key),
    {
        &map.item(store, self.addr).unwrap().key
    }

    /// The value of the entry.
    pub fn get<'a, K: Ord, V, S: SlabView<Node<K, V>>>(&self, map: &BTreeMap<K, V>, store: &'a S) -> (value: &'a V)
        where
            K: 'a,
        requires
            map.wf(store),
            self.valid(map, store.cells()),
        ensures
            *value == map.item_of(store.cells(), self.spec_address()).value,
            *value == map@[map.item_of(store.cells(), self.spec_address()).key],
    {
        &map.item(store, self.addr).unwrap().value
    }

    /// Binds `value` to the key of the entry and returns the value that was
    /// bound to it.
    pub fn insert<K: Ord, V, S: Slab<Node<K, V>>>(
        &mut self,
        map: &mut BTreeMap<K, V>,
        store: &mut S,
        value: V,
    ) -> (previous: V)
        requires
            old(map).wf(old(store)),
            old(self).valid(old(map), old(store).cells()),
        ensures
            final(map).wf(final(store)),
            *final(self) == *old(self),
            final(self).valid(final(map), final(store).cells()),
            final(map).item_of(final(store).cells(), old(self).spec_address()).key == old(
                map,
            ).item_of(old(store).cells(), old(self).spec_address()).key,
            previous == old(map)@[old(map).item_of(old(store).cells(), old(self).spec_address()).key],
            final(map)@ == old(map)@.insert(
                old(map).item_of(old(store).cells(), old(self).spec_address()).key,
                value,
            ),
            evolves(old(store).cells(), final(store).cells(), old(map).nodes(), final(map).nodes()),
    {
        map.replace_value_at(store, self.addr, value)
    }

    /// Takes the entry out of the map and returns its value.
    pub fn remove<K: Ord, V, S: Slab<Node<K, V>>>(self, map: &mut BTreeMap<K, V>, store: &mut S) -> (value:
        V)
        requires
            old(map).wf(old(store)),
            self.valid(old(map), old(store).cells()),
        ensures
            final(map).wf(final(store)),
            value == old(map)@[old(map).item_of(old(store).cells(), self.spec_address()).key],
            final(map)@ == old(map)@.remove(
                old(map).item_of(old(store).cells(), self.spec_address()).key,
            ),
            evolves(old(store).cells(), final(store).cells(), old(map).nodes(), final(map).nodes()),
    {
        let (item, _) = map.remove_at(store, self.addr).unwrap();
        item.into_value()
    }

    /// Takes the entry out of the map and returns its key and its value.
    pub fn remove_entry<K: Ord, V, S: Slab<Node<K, V>>>(self, map: &mut BTreeMap<K, V>, store: &mut S) -> (entry:
        (K, V))
        requires
            old(map).wf(old(store)),
            self.valid(old(map), old(store).cells()),
        ensures
            final(map).wf(final(store)),
            entry.0 == old(map).item_of(old(store).cells(), self.spec_address()).key,
            entry.1 == old(map)@[entry.0],
            final(map)@ == old(map)@.remove(entry.0),
            evolves(old(store).cells(), final(store).cells(), old(map).nodes(), final(map).nodes()),
    {
        let (item, _) = map.remove_at(store, self.addr).unwrap();
        item.into_pair()
    }
}

impl<K: Ord> Entry<K> {
    /// The entry is the place of the key `key` in `map`.
    pub open spec fn valid<V>(&self, map: &BTreeMap<K, V>, cells: Cells<K, V>, key: K) -> bool {
        match self {
            Entry::Vacant(entry) => entry.valid(map, cells) && entry.spec_key() == key,
            Entry::Occupied(entry) => entry.valid(map, cells) && map.item_of(
                cells,
                entry.spec_address(),
            ).key == key,
        }
    }

    /// The address of the entry: that of the item, or the place at which the
    /// key would stand.
    pub fn address(&self) -> (addr: Address)
        ensures
            addr == (match self {
                Entry::Vacant(entry) => entry.spec_address(),
                Entry::Occupied(entry) => entry.spec_address(),
            }),
    {
        match self {
            Entry::Vacant(entry) => entry.address(),
            Entry::Occupied(entry) => entry.address(),
        }
    }

    /// The key of the entry.
    pub fn key<'a, V, S: SlabView<Node<K, V>>>(&'a self, map: &BTreeMap<K, V>, store: &'a S) -> (key: &'a K)
        where
            V: 'a,
        requires
            map.wf(store),
            exists|k: K| self.valid(map, store.cells(), k),
        ensures
            self.valid(map, store.cells(), *key),
    {
        match self {
            Entry::Vacant(entry) => entry.key(),
            Entry::Occupied(entry) => entry.key(map, store),
        }
    }

    /// Binds the default value to the key of the entry if the map does not
    /// have the key. Returns the address of the item of the key.
    pub fn or_default<V: Default, S: Slab<Node<K, V>>>(self, map: &mut BTreeMap<K, V>, store: &mut S) -> (addr:
        Address)
        requires
            old(map).wf(old(store)),
            old(map)@.dom().len() < usize::MAX,
            exists|key: K| self.valid(old(map), old(store).cells(), key),
        ensures
            final(map).wf(final(store)),
            final(map).is_item_address(final(store).cells(), addr),
            forall|key: K|
                self.valid(old(map), old(store).cells(), key) ==> final(map).item_of(
                    final(store).cells(),
                    addr,
                ).key == key && (if old(map)@.dom().contains(key) {
                    final(map)@ == old(map)@
                } else {
                    exists|value: V| #[trigger]
                        call_ensures(V::default, (), value) && final(map)@ == old(map)@.insert(
                            key,
                            value,
                        )
                }),
            evolves(old(store).cells(), final(store).cells(), old(map).nodes(), final(map).nodes()),
    {
        match self {
            Entry::Vacant(entry) => {
                let value = V::default();
                entry.insert(map, store, value)
            },
            Entry::Occupied(entry) => {
                proof {
                    map.lemma_item_is_entry(store.cells(), entry.spec_address());
                    map.lemma_nodes_occupied(store.cells());
                    crate::remove::lemma_no_change(
                        store.cells(),
                        map.shape@.nodes,
                        map.root,
                        map.shape@,
                    );
                }
                entry.address()
            },
        }
    }

    /// Binds `default` to the key of the entry if the map does not have the
    /// key. Returns the address of the item of the key.
    pub fn or_insert<V, S: Slab<Node<K, V>>>(self, map: &mut BTreeMap<K, V>, store: &mut S, default: V) -> (addr:
        Address)
        requires
            old(map).wf(old(store)),
            old(map)@.dom().len() < usize::MAX,
            exists|key: K| self.valid(old(map), old(store).cells(), key),
        ensures
            final(map).wf(final(store)),
            final(map).is_item_address(final(store).cells(), addr),
            forall|key: K|
                self.valid(old(map), old(store).cells(), key) ==> final(map).item_of(
                    final(store).cells(),
                    addr,
                ).key == key && final(map)@ == (if old(map)@.dom().contains(key) {
                    old(map)@
                } else {
                    old(map)@.insert(key, default)
                }),
            evolves(old(store).cells(), final(store).cells(), old(map).nodes(), final(map).nodes()),
    {
        match self {
            Entry::Vacant(entry) => entry.insert(map, store, default),
            Entry::Occupied(entry) => {
                proof {
                    map.lemma_item_is_entry(store.cells(), entry.spec_address());
                    map.lemma_nodes_occupied(store.cells());
                    crate::remove::lemma_no_change(
                        store.cells(),
                        map.shape@.nodes,
                        map.root,
                        map.shape@,
                    );
                }
                entry.address()
            },
        }
    }

    /// Binds what `default` gives to the key of the entry if the map does
    /// not have the key. Returns the address of the item of the key.
    pub fn or_insert_with<V, S: Slab<Node<K, V>>, F: FnOnce() -> V>(
        self,
        map: &mut BTreeMap<K, V>,
        store: &mut S,
        default: F,
    ) -> (addr: Address)
        requires
            old(map).wf(old(store)),
            old(map)@.dom().len() < usize::MAX,
            exists|key: K| self.valid(old(map), old(store).cells(), key),
            call_requires(default, ()),
        ensures
            final(map).wf(final(store)),
            final(map).is_item_address(final(store).cells(), addr),
            forall|key: K|
                self.valid(old(map), old(store).cells(), key) ==> final(map).item_of(
                    final(store).cells(),
                    addr,
                ).key == key && (if old(map)@.dom().contains(key) {
                    final(map)@ == old(map)@
                } else {
                    exists|value: V| #[trigger]
                        call_ensures(default, (), value) && final(map)@ == old(map)@.insert(key, value)
                }),
            evolves(old(store).cells(), final(store).cells(), old(map).nodes(), final(map).nodes()),
    {
        match self {
            Entry::Vacant(entry) => {
                let value = default();
                entry.insert(map, store, value)
            },
            Entry::Occupied(entry) => {
                proof {
                    map.lemma_item_is_entry(store.cells(), entry.spec_address());
                    map.lemma_nodes_occupied(store.cells());
                    crate::remove::lemma_no_change(
                        store.cells(),
                        map.shape@.nodes,
                        map.root,
                        map.shape@,
                    );
                }
                entry.address()
            },
        }
    }

    /// Binds what `default` gives for the key to the key of the entry if the
    /// map does not have the key. Returns the address of the item of the key.
    pub fn or_insert_with_key<V, S: Slab<Node<K, V>>, F: FnOnce(&K) -> V>(
        self,
        map: &mut BTreeMap<K, V>,
        store: &mut S,
        default: F,
    ) -> (addr: Address)
        requires
            old(map).wf(old(store)),
            old(map)@.dom().len() < usize::MAX,
            exists|key: K| self.valid(old(map), old(store).cells(), key),
            forall|key: K| self.valid(old(map), old(store).cells(), key) ==> call_requires(default, (&key,)),
        ensures
            final(map).wf(final(store)),
            final(map).is_item_address(final(store).cells(), addr),
            forall|key: K|
                self.valid(old(map), old(store).cells(), key) ==> final(map).item_of(
                    final(store).cells(),
                    addr,
                ).key == key && (if old(map)@.dom().contains(key) {
                    final(map)@ == old(map)@
                } else {
                    exists|value: V| #[trigger]
                        call_ensures(default, (&key,), value) && final(map)@ == old(map)@.insert(
                            key,
                            value,
                        )
                }),
            evolves(old(store).cells(), final(store).cells(), old(map).nodes(), final(map).nodes()),
    {
        match self {
            Entry::Vacant(entry) => {
                let value = default(entry.key());
                entry.insert(map, store, value)
            },
            Entry::Occupied(entry) => {
                proof {
                    map.lemma_item_is_entry(store.cells(), entry.spec_address());
                    map.lemma_nodes_occupied(store.cells());
                    crate::remove::lemma_no_change(
                        store.cells(),
                        map.shape@.nodes,
                        map.root,
                        map.shape@,
                    );
                }
                entry.address()
            },
        }
    }

    /// Changes the value of the entry through `f` if the map has the key.
    pub fn and_modify<V, S: Slab<Node<K, V>>, F: FnOnce(&V) -> V>(
        self,
        map: &mut BTreeMap<K, V>,
        store: &mut S,
        f: F,
    ) -> (entry: Self)
        requires
            old(map).wf(old(store)),
            exists|key: K| self.valid(old(map), old(store).cells(), key),
            forall|key: K|
                self.valid(old(map), old(store).cells(), key) && old(map)@.dom().contains(key)
                    ==> call_requires(f, (&old(map)@[key],)),
        ensures
            final(map).wf(final(store)),
            entry == self,
            forall|key: K|
                self.valid(old(map), old(store).cells(), key) ==> entry.valid(
                    final(map),
                    final(store).cells(),
                    key,
                ) && (if old(map)@.dom().contains(key) {
                    exists|value: V| #[trigger]
                        call_ensures(f, (&old(map)@[key],), value) && final(map)@ == old(map)@.insert(
                            key,
                            value,
                        )
                } else {
                    final(map)@ == old(map)@
                }),
            evolves(old(store).cells(), final(store).cells(), old(map).nodes(), final(map).nodes()),
    {
        match self {
            Entry::Vacant(entry) => {
                proof {
                    map.lemma_nodes_occupied(store.cells());
                    crate::remove::lemma_no_change(
                        store.cells(),
                        map.shape@.nodes,
                        map.root,
                        map.shape@,
                    );
                }
                Entry::Vacant(entry)
            },
            Entry::Occupied(entry) => {
                proof {
                    map.lemma_item_is_entry(store.cells(), entry.spec_address());
                }
                let ghost m0 = map@;
                let ghost k = map.item_of(store.cells(), entry.spec_address()).key;
                let value = f(entry.get(map, store));
                let ghost given = value;
                let mut entry = entry;
                entry.insert(map, store, value);
                proof {
                    assert(call_ensures(f, (&m0[k],), given));
                    assert(map@ == m0.insert(k, given));
                }
                Entry::Occupied(entry)
            },
        }
    }
}

impl<K: Ord, V> BTreeMap<K, V> {
    /// The entry of the key `key`.
    pub fn entry<S: SlabView<Node<K, V>>>(&self, store: &S, key: K) -> (entry: Entry<K>)
        requires
            self.wf(store),
        ensures
            entry.valid(self, store.cells(), key),
            entry is Occupied <==> self@.dom().contains(key),
    {
        match self.address_of(store, &key) {
            Ok(addr) => Entry::Occupied(OccupiedEntry { addr }),
            Err(addr) => Entry::Vacant(VacantEntry { key, addr }),
        }
    }

    /// The entry of the least key; `None` if the map is empty.
    pub fn first_entry<S: SlabView<Node<K, V>>>(&self, store: &S) -> (entry: Option<OccupiedEntry>)
        requires
            self.wf(store),
        ensures
            entry.is_some() <==> self.root().is_some(),
            entry.is_some() ==> entry.unwrap().valid(self, store.cells()) && crate::tree::is_prev(
                self@,
                self.item_of(store.cells(), entry.unwrap().spec_address()).key,
                None,
            ),
    {
        match self.first_item_address(store) {
            Some(addr) => Some(OccupiedEntry { addr }),
            None => None,
        }
    }

    /// The entry of the greatest key; `None` if the map is empty.
    pub fn last_entry<S: SlabView<Node<K, V>>>(&self, store: &S) -> (entry: Option<OccupiedEntry>)
        requires
            self.wf(store),
        ensures
            entry.is_some() <==> self.root().is_some(),
            entry.is_some() ==> entry.unwrap().valid(self, store.cells()) && crate::tree::is_next(
                self@,
                self.item_of(store.cells(), entry.unwrap().spec_address()).key,
                None,
            ),
    {
        match self.last_item_address(store) {
            Some(addr) => Some(OccupiedEntry { addr }),
            None => None,
        }
    }
}

} // verus!
