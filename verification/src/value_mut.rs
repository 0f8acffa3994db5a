//! Writing to a value in place: a reference to the value of an entry, and
//! the step that lets the map take note of what was written through it.
//!
//! A map's view belongs to its header, and a value is written through the
//! reference only after the function that gave the reference has returned.
//! So the view follows in a second step: `settle`, which costs nothing when
//! the program runs.

use vstd::prelude::*;
use crate::addr::Address;
use crate::insert::{item_replaced, lemma_item_replaced, node_mut};
use crate::map::BTreeMap;
use crate::node::{Item, Node, NodeView};
use crate::order::total_order;
use crate::slab::{Slab, SlabView};
use crate::tree::{
    evolves, holds, is_next, is_prev, item_at, lemma_nodes_in_cells, model_ok, node_ok, tree_ok,
    Cells,
};

verus! {

impl<K: Ord, V> BTreeMap<K, V> {
    /// The nodes of the map form a B-tree in `cells` whose items are the
    /// entries of the map, but that `value` is bound to `key` there: the
    /// state after `value` was written through a reference to the value of
    /// `key` and before the map has taken note of it.
    pub open(crate) spec fn written(&self, cells: Cells<K, V>, key: K, value: V) -> bool {
        &&& self.counted()
        &&& self.model@.dom().contains(key)
        &&& self.root.is_some()
        &&& self.root.unwrap() != usize::MAX
        &&& tree_ok(cells, self.root.unwrap(), self.shape@, None, None)
        &&& model_ok(cells, self.shape@, self.model@.insert(key, value))
    }

    /// A map that is well formed is in the state in which the value of an
    /// entry was written again as it is.
    pub proof fn lemma_written_same(&self, cells: Cells<K, V>, key: K)
        requires
            self.counted(),
            self.inv(cells),
            self@.dom().contains(key),
        ensures
            self.written(cells, key, self@[key]),
    {
        assert(self.model@.insert(key, self.model@[key]) =~= self.model@);
    }

    /// The key of the item at `addr`, and its value for writing. The map
    /// takes note of what is written by `settle`.
    pub fn key_value_mut_at<'a, S: Slab<Node<K, V>>>(&self, store: &'a mut S, addr: Address) -> (entry: (
        &'a K,
        &'a mut V,
    ))
        where
            K: 'a,
        requires
            self.wf(old(store)),
            self.is_item_address(old(store).cells(), addr),
        ensures
            *entry.0 == self.item_of(old(store).cells(), addr).key,
            *entry.1 == self.item_of(old(store).cells(), addr).value,
            self@.contains_pair(*entry.0, *entry.1),
            final(store).wf(),
            self.written(final(store).cells(), *entry.0, *final(entry.1)),
            self.is_item_address(final(store).cells(), addr),
            self.item_of(final(store).cells(), addr) == (Item { key: *entry.0, value: *final(entry.1) }),
            evolves(old(store).cells(), final(store).cells(), self.nodes(), self.nodes()),
    {
        let ghost c0 = store.cells();
        let ghost g = self.shape@;
        let ghost root = self.root.unwrap();
        let ghost m0 = self.model@;
        let ghost id = addr.id;
        let ghost offset = addr.offset.as_int();
        let ghost key = c0[id]@.items[offset].key;
        proof {
            lemma_nodes_in_cells(c0, root, g, None, None);
            assert(node_ok(c0, root, g, id));
            let held = item_at(c0, id, offset);
            assert(m0.contains_pair(held.key, held.value));
            assert forall|n: Node<K, V>|
                n@ == (NodeView {
                    items: c0[id]@.items.update(offset, Item { key, value: n@.items[offset].value }),
                    ..c0[id]@
                }) implies ({
                    let c1 = #[trigger] c0.insert(id, n);
                    &&& tree_ok(c1, root, g, None, None)
                    &&& model_ok(c1, g, m0.insert(key, n@.items[offset].value))
                    &&& evolves(c0, c1, g.nodes, g.nodes)
                }) by {
                let c1 = c0.insert(id, n);
                assert(c1.dom() =~= c0.dom());
                let item = Item { key, value: n@.items[offset].value };
                assert(item_replaced(c0, c1, id, offset, item));
                lemma_item_replaced(c0, c1, root, g, m0, id, offset, item);
            }
        }
        node_mut(store, addr.id).key_value_mut(addr.offset.unwrap())
    }

    /// The value of the item at `addr`, for writing. The map takes note of
    /// what is written by `settle`.
    pub fn value_mut_at<'a, S: Slab<Node<K, V>>>(&self, store: &'a mut S, addr: Address) -> (value: &'a mut V)
        where
            K: 'a,
        requires
            self.wf(old(store)),
            self.is_item_address(old(store).cells(), addr),
        ensures
            *value == self.item_of(old(store).cells(), addr).value,
            final(store).wf(),
            self.written(
                final(store).cells(),
                self.item_of(old(store).cells(), addr).key,
                *final(value),
            ),
            self.is_item_address(final(store).cells(), addr),
            self.item_of(final(store).cells(), addr) == (Item {
                key: self.item_of(old(store).cells(), addr).key,
                value: *final(value),
            }),
            evolves(old(store).cells(), final(store).cells(), self.nodes(), self.nodes()),
    {
        self.key_value_mut_at(store, addr).1
    }

    /// The value bound to `key`, for writing, if there is one. The map takes
    /// note of what is written by `settle`.
    pub fn get_mut<'a, S: Slab<Node<K, V>>>(&self, store: &'a mut S, key: &K) -> (value: Option<&'a mut V>)
        where
            K: 'a,
        requires
            self.wf(old(store)),
        ensures
            value.is_some() <==> self@.dom().contains(*key),
            final(store).wf(),
            value.is_none() ==> final(store).cells() == old(store).cells(),
            value.is_some() ==> *value.unwrap() == self@[*key] && self.written(
                final(store).cells(),
                *key,
                *final(value.unwrap()),
            ),
            evolves(old(store).cells(), final(store).cells(), self.nodes(), self.nodes()),
    {
        proof {
            self.lemma_nodes_occupied(store.cells());
            crate::remove::lemma_no_change(store.cells(), self.shape@.nodes, self.root, self.shape@);
        }
        match self.address_of(&*store, key) {
            Ok(addr) => Some(self.value_mut_at(store, addr)),
            Err(_) => None,
        }
    }

    /// The entry with the key `key`, its value for writing, if there is one.
    /// The map takes note of what is written by `settle`.
    pub fn get_key_value_mut<'a, S: Slab<Node<K, V>>>(&self, store: &'a mut S, key: &K) -> (entry: Option<
        (&'a K, &'a mut V),
    >)
        where
            K: 'a,
        requires
            self.wf(old(store)),
        ensures
            entry.is_some() <==> self@.dom().contains(*key),
            final(store).wf(),
            entry.is_none() ==> final(store).cells() == old(store).cells(),
            entry.is_some() ==> *entry.unwrap().0 == *key && *entry.unwrap().1 == self@[*key]
                && self.written(final(store).cells(), *key, *final(entry.unwrap().1)),
            evolves(old(store).cells(), final(store).cells(), self.nodes(), self.nodes()),
    {
        proof {
            self.lemma_nodes_occupied(store.cells());
            crate::remove::lemma_no_change(store.cells(), self.shape@.nodes, self.root, self.shape@);
        }
        match self.address_of(&*store, key) {
            Ok(addr) => Some(self.key_value_mut_at(store, addr)),
            Err(_) => None,
        }
    }

    /// The entry with the least key, its value for writing; `None` if the
    /// map is empty. The map takes note of what is written by `settle`.
    pub fn first_key_value_mut<'a, S: Slab<Node<K, V>>>(&self, store: &'a mut S) -> (entry: Option<
        (&'a K, &'a mut V),
    >)
        where
            K: 'a,
        requires
            self.wf(old(store)),
        ensures
            entry.is_none() <==> self@.dom().len() == 0,
            final(store).wf(),
            entry.is_none() ==> final(store).cells() == old(store).cells(),
            entry.is_some() ==> self@.contains_pair(*entry.unwrap().0, *entry.unwrap().1) && is_prev(
                self@,
                *entry.unwrap().0,
                None,
            ) && self.written(final(store).cells(), *entry.unwrap().0, *final(entry.unwrap().1)),
            evolves(old(store).cells(), final(store).cells(), self.nodes(), self.nodes()),
    {
        proof {
            self.lemma_empty(store.cells());
            self.lemma_nodes_occupied(store.cells());
            crate::remove::lemma_no_change(store.cells(), self.shape@.nodes, self.root, self.shape@);
        }
        match self.first_item_address(&*store) {
            Some(addr) => Some(self.key_value_mut_at(store, addr)),
            None => None,
        }
    }

    /// The entry with the greatest key, its value for writing; `None` if
    /// the map is empty. The map takes note of what is written by `settle`.
    pub fn last_key_value_mut<'a, S: Slab<Node<K, V>>>(&self, store: &'a mut S) -> (entry: Option<
        (&'a K, &'a mut V),
    >)
        where
            K: 'a,
        requires
            self.wf(old(store)),
        ensures
            entry.is_none() <==> self@.dom().len() == 0,
            final(store).wf(),
            entry.is_none() ==> final(store).cells() == old(store).cells(),
            entry.is_some() ==> self@.contains_pair(*entry.unwrap().0, *entry.unwrap().1) && is_next(
                self@,
                *entry.unwrap().0,
                None,
            ) && self.written(final(store).cells(), *entry.unwrap().0, *final(entry.unwrap().1)),
            evolves(old(store).cells(), final(store).cells(), self.nodes(), self.nodes()),
    {
        proof {
            self.lemma_empty(store.cells());
            self.lemma_nodes_occupied(store.cells());
            crate::remove::lemma_no_change(store.cells(), self.shape@.nodes, self.root, self.shape@);
        }
        match self.last_item_address(&*store) {
            Some(addr) => Some(self.key_value_mut_at(store, addr)),
            None => None,
        }
    }

    /// Lets the map take note of the value that was written through a
    /// reference to the value of `key`: the map is well formed again, and
    /// that value is bound to the key.
    pub fn settle<S: SlabView<Node<K, V>>>(&mut self, store: &S, key: &K)
        requires
            total_order::<K>(),
            store.wf(),
            exists|v: V| old(self).written(store.cells(), *key, v),
        ensures
            final(self).wf(store),
            forall|v: V| #[trigger]
                old(self).written(store.cells(), *key, v) ==> final(self)@ == old(self)@.insert(*key, v),
            final(self).nodes() == old(self).nodes(),
            final(self).root() == old(self).root(),
    {
        let ghost cells = store.cells();
        let ghost m0 = self.model@;
        let ghost g = self.shape@;
        let ghost found = choose|v: V| self.written(cells, *key, v);
        proof {
            assert forall|v: V| #[trigger] self.written(cells, *key, v) implies v == found by {
                let m1 = m0.insert(*key, v);
                let m2 = m0.insert(*key, found);
                assert(m1.dom().contains(*key));
                let (y, i) = choose|y: usize, i: int| holds(cells, g, y, i, *key);
                assert(holds(cells, g, y, i, *key));
                let held = item_at(cells, y, i);
                assert(m1.contains_pair(held.key, held.value));
                assert(m2.contains_pair(held.key, held.value));
            }
            assert(m0.insert(*key, found).dom() =~= m0.dom());
        }
        self.model = Ghost(m0.insert(*key, found));
    }
}

} // verus!
