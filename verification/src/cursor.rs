//! A cursor: a position at one entry of a map, or at none, that can be moved
//! to the next and to the previous entry.

use vstd::prelude::*;
use crate::addr::Address;
use crate::map::BTreeMap;
use crate::node::Node;
use crate::slab::SlabView;
use crate::tree::{is_next, is_prev, next_key, prev_key, Cells};

verus! {

/// A position at an entry of a map. A cursor that is at no entry is
/// detached.
pub struct Cursor {
    addr: Option<Address>,
}

impl Cursor {
    /// The address of the entry at which the cursor is.
    pub closed spec fn spec_address(&self) -> Option<Address> {
        self.addr
    }

    /// The cursor is detached or at an entry of `map`.
    pub open spec fn wf<K: Ord, V>(&self, map: &BTreeMap<K, V>, cells: Cells<K, V>) -> bool {
        match self.spec_address() {
            Some(addr) => map.is_item_address(cells, addr),
            None => true,
        }
    }

    /// The key of the entry at which the cursor is.
    pub open spec fn key<K: Ord, V>(&self, map: &BTreeMap<K, V>, cells: Cells<K, V>) -> Option<K> {
        match self.spec_address() {
            Some(addr) => Some(map.item_of(cells, addr).key),
            None => None,
        }
    }

    /// A cursor at no entry.
    pub fn new_detached() -> (cursor: Self)
        ensures
            cursor.spec_address().is_none(),
    {
        Cursor { addr: None }
    }

    /// A cursor at the entry with the address `addr`, or at none.
    pub fn new(addr: Option<Address>) -> (cursor: Self)
        ensures
            cursor.spec_address() == addr,
    {
        Cursor { addr }
    }

    /// A cursor at the first entry of `map`; detached if the map is empty.
    pub fn new_at_start<K: Ord, V, S: SlabView<Node<K, V>>>(map: &BTreeMap<K, V>, store: &S) -> (cursor:
        Self)
        requires
            map.wf(store),
        ensures
            cursor.wf(map, store.cells()),
            cursor.spec_address().is_some() <==> map.root().is_some(),
            cursor.spec_address().is_some() ==> is_prev(
                map@,
                cursor.key(map, store.cells()).unwrap(),
                None,
            ),
    {
        Cursor { addr: map.first_item_address(store) }
    }

    /// A cursor at the last entry of `map`; detached if the map is empty.
    pub fn new_at_end<K: Ord, V, S: SlabView<Node<K, V>>>(map: &BTreeMap<K, V>, store: &S) -> (cursor:
        Self)
        requires
            map.wf(store),
        ensures
            cursor.wf(map, store.cells()),
            cursor.spec_address().is_some() <==> map.root().is_some(),
            cursor.spec_address().is_some() ==> is_next(
                map@,
                cursor.key(map, store.cells()).unwrap(),
                None,
            ),
    {
        Cursor { addr: map.last_item_address(store) }
    }

    /// Moves the cursor to the entry with the next greater key; the cursor is
    /// detached if there is none.
    pub fn advance<K: Ord, V, S: SlabView<Node<K, V>>>(&mut self, map: &BTreeMap<K, V>, store: &S)
        requires
            map.wf(store),
            old(self).wf(map, store.cells()),
            old(self).spec_address().is_some(),
        ensures
            final(self).wf(map, store.cells()),
            final(self).key(map, store.cells()) == next_key(
                map@,
                old(self).key(map, store.cells()).unwrap(),
            ),
    {
        self.addr = map.next_item_address(store, self.addr.unwrap());
    }

    /// Moves the cursor to the entry with the next smaller key; the cursor is
    /// detached if there is none.
    pub fn advance_back<K: Ord, V, S: SlabView<Node<K, V>>>(&mut self, map: &BTreeMap<K, V>, store: &S)
        requires
            map.wf(store),
            old(self).wf(map, store.cells()),
            old(self).spec_address().is_some(),
        ensures
            final(self).wf(map, store.cells()),
            final(self).key(map, store.cells()) == prev_key(
                map@,
                old(self).key(map, store.cells()).unwrap(),
            ),
    {
        let ghost k = self.key(map, store.cells()).unwrap();
        let found = map.previous_item_address(store, self.addr.unwrap());
        proof {
            match found {
                Some(addr) => {
                    crate::tree::lemma_prev_unique(
                        map@,
                        k,
                        Some(map.item_of(store.cells(), addr).key),
                    );
                },
                None => {
                    crate::tree::lemma_prev_unique(map@, k, None);
                },
            }
        }
        self.addr = found;
    }

    /// Whether the cursor is at an entry.
    pub fn is_attached(&self) -> (r: bool)
        ensures
            r == self.spec_address().is_some(),
    {
        self.addr.is_some()
    }

    /// Takes the cursor away from its entry.
    pub fn detach(&mut self)
        ensures
            final(self).spec_address().is_none(),
    {
        self.addr = None;
    }

    /// The address of the entry at which the cursor is.
    pub fn address(&self) -> (addr: Option<Address>)
        ensures
            addr == self.spec_address(),
    {
        self.addr
    }

    /// The entry at which the cursor is.
    pub fn key_value<'a, K: Ord, V, S: SlabView<Node<K, V>>>(&self, map: &BTreeMap<K, V>, store: &'a S) -> (entry:
        Option<(&'a K, &'a V)>)
        requires
            map.wf(store),
            self.wf(map, store.cells()),
        ensures
            entry.is_some() <==> self.spec_address().is_some(),
            entry.is_some() ==> Some(*entry.unwrap().0) == self.key(map, store.cells())
                && map@.contains_pair(*entry.unwrap().0, *entry.unwrap().1),
    {
        match self.addr {
            Some(addr) => {
                let item = map.item(store, addr).unwrap();
                Some((&item.key, &item.value))
            },
            None => None,
        }
    }
}

} // verus!
