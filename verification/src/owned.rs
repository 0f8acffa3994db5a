//! A map that owns the slab of its nodes: no other tree lives in that slab,
//! so that the map can be emptied at once.

use vstd::prelude::*;
use crate::node::Node;
use crate::order::{key_lt, total_order};
use crate::slab::{OwnedSlab, Slab, SlabView};

verus! {

/// A map from keys to values, kept in key order, together with the slab
/// that holds its nodes.
#[verifier::reject_recursive_types(K)]
pub struct BTreeMap<K, V, C> {
    store: C,
    map: crate::map::BTreeMap<K, V>,
}

impl<K, V, C> View for BTreeMap<K, V, C> {
    type V = Map<K, V>;

    closed spec fn view(&self) -> Map<K, V> {
        self.map@
    }
}

impl<K: Ord, V, C: OwnedSlab<Node<K, V>>> BTreeMap<K, V, C> {
    /// The map is well formed in its slab, and every occupied cell of the
    /// slab is a node of the map.
    pub closed spec fn wf(&self) -> bool {
        &&& self.map.wf(&self.store)
        &&& self.store.cells().dom() =~= self.map.nodes()
    }

    /// The slab of the map.
    pub closed spec fn store(&self) -> C {
        self.store
    }

    /// A map that is well formed is finite, and its keys are totally
    /// ordered.
    pub proof fn lemma_wf(&self)
        requires
            self.wf(),
        ensures
            self@.dom().finite(),
            total_order::<K>(),
    {
    }

    /// Creates an empty map in `store`, which must be empty.
    pub fn new_in(store: C) -> (map: Self)
        requires
            total_order::<K>(),
            store.wf(),
            store.cells() == Map::<usize, Node<K, V>>::empty(),
        ensures
            map.wf(),
            map@ == Map::<K, V>::empty(),
            map.store() == store,
    {
        let map = crate::map::BTreeMap::new_in(&store);
        BTreeMap { store, map }
    }

    /// The number of entries.
    pub fn len(&self) -> (len: usize)
        requires
            self.wf(),
        ensures
            len == self@.dom().len(),
    {
        self.map.len()
    }

    /// Whether the map has no entries.
    pub fn is_empty(&self) -> (r: bool)
        requires
            self.wf(),
        ensures
            r <==> self@.dom().len() == 0,
    {
        self.map.is_empty()
    }

    /// The value bound to `key`, if there is one.
    pub fn get(&self, key: &K) -> (value: Option<&V>)
        requires
            self.wf(),
        ensures
            value == (if self@.dom().contains(*key) {
                Some(&self@[*key])
            } else {
                None::<&V>
            }),
    {
        self.map.get(&self.store, key)
    }

    /// Whether the map has an entry with the key `key`.
    pub fn contains_key(&self, key: &K) -> (r: bool)
        requires
            self.wf(),
        ensures
            r <==> self@.dom().contains(*key),
    {
        self.map.contains_key(&self.store, key)
    }

    /// The entries of the map in key order.
    pub fn to_vec(&self) -> (entries: Vec<(&K, &V)>)
        requires
            self.wf(),
        ensures
            entries@.len() == self@.dom().len(),
            forall|i: int|
                0 <= i < entries@.len() ==> self@.contains_pair(
                    *(#[trigger] entries@[i]).0,
                    *entries@[i].1,
                ),
            forall|i: int, j: int|
                0 <= i < j < entries@.len() ==> key_lt(*(#[trigger] entries@[i]).0, *(#[trigger] entries@[j]).0),
            forall|k: K|
                self@.dom().contains(k) ==> exists|i: int|
                    0 <= i < entries@.len() && *(#[trigger] entries@[i]).0 == k,
    {
        self.map.to_vec(&self.store)
    }

    /// Binds `value` to `key`. Returns the value that was bound to the key
    /// before, if there was one.
    pub fn insert(&mut self, key: K, value: V) -> (previous: Option<V>)
        requires
            old(self).wf(),
            old(self)@.dom().len() < usize::MAX,
        ensures
            final(self).wf(),
            final(self)@ == old(self)@.insert(key, value),
            previous == (if old(self)@.dom().contains(key) {
                Some(old(self)@[key])
            } else {
                None::<V>
            }),
    {
        proof {
            self.map.lemma_nodes_occupied(self.store.cells());
        }
        let previous = self.map.insert(&mut self.store, key, value);
        proof {
            self.map.lemma_nodes_occupied(self.store.cells());
        }
        previous
    }

    /// Takes the entry with the key `key` out of the map. Returns the value
    /// that was bound to the key, if there was one.
    pub fn remove(&mut self, key: &K) -> (value: Option<V>)
        requires
            old(self).wf(),
        ensures
            final(self).wf(),
            final(self)@ == old(self)@.remove(*key),
            value == (if old(self)@.dom().contains(*key) {
                Some(old(self)@[*key])
            } else {
                None::<V>
            }),
    {
        proof {
            self.map.lemma_nodes_occupied(self.store.cells());
        }
        let value = self.map.remove(&mut self.store, key);
        proof {
            self.map.lemma_nodes_occupied(self.store.cells());
        }
        value
    }

    /// Takes all entries out of the map by emptying the slab at once.
    pub fn clear(&mut self)
        requires
            old(self).wf(),
        ensures
            final(self).wf(),
            final(self)@ == Map::<K, V>::empty(),
            final(self).store().cells() == Map::<usize, Node<K, V>>::empty(),
    {
        self.store.clear();
        self.map = crate::map::BTreeMap::new();
    }

    /// Moves all entries of `other` into this map. Where both maps have a
    /// key, the value of `other` is bound to it afterwards. `other` is empty
    /// afterwards.
    #[verifier::loop_isolation(false)]
    pub fn append1(&mut self, other: &mut Self)
        requires
            old(self).wf(),
            old(other).wf(),
            old(self)@.dom().len() + old(other)@.dom().len() < usize::MAX,
        ensures
            final(self).wf(),
            final(other).wf(),
            final(self)@ == old(self)@.union_prefer_right(old(other)@),
            final(other)@ == Map::<K, V>::empty(),
    {
        let ghost total = self@.union_prefer_right(other@);
        proof {
            self.lemma_wf();
            other.lemma_wf();
        }
        loop
            invariant
                self.wf(),
                other.wf(),
                self@.union_prefer_right(other@) == total,
                self@.dom().len() + other@.dom().len() < usize::MAX,
            decreases other@.dom().len(),
        {
            let ghost sm = self@;
            let ghost om = other@;
            proof {
                other.map.lemma_nodes_occupied(other.store.cells());
                self.lemma_wf();
                other.lemma_wf();
            }
            match other.map.pop_first(&mut other.store) {
                Some((key, value)) => {
                    proof {
                        other.map.lemma_nodes_occupied(other.store.cells());
                        vstd::set_lib::lemma_set_empty_equivalency_len(om.dom());
                    }
                    self.insert(key, value);
                    proof {
                        assert(self@.union_prefer_right(other@) =~= total);
                        if sm.dom().contains(key) {
                            assert(self@.dom() =~= sm.dom());
                        }
                    }
                },
                None => {
                    proof {
                        other.map.lemma_nodes_occupied(other.store.cells());
                        other.map.lemma_empty(other.store.cells());
                        assert(self@.union_prefer_right(other@) =~= self@);
                    }
                    return;
                },
            }
        }
    }

    /// Gives the slab back as it is, with the nodes of the map in it.
    pub fn into_store_dont_clear(self) -> (store: C)
        ensures
            store == self.store(),
    {
        self.store
    }

    /// Empties the slab and gives it back.
    pub fn into_store_do_clear(self) -> (store: C)
        requires
            self.wf(),
        ensures
            store.wf(),
            store.cells() == Map::<usize, Node<K, V>>::empty(),
    {
        let mut map = self;
        map.clear();
        map.store
    }
}

} // verus!
