//! The first and the last entry of a map, and changing the value of one key
//! through a function.

use vstd::prelude::*;
use crate::addr::Address;
use crate::map::{lookup, BTreeMap};
use crate::node::Item;
use crate::node::Node;
use crate::slab::{Slab, SlabView};
use crate::tree::{evolves, is_next, is_prev};

verus! {

impl<K: Ord, V> BTreeMap<K, V> {
    /// The entry with the least key; `None` if the map is empty.
    pub fn first_key_value<'a, S: SlabView<Node<K, V>>>(&self, store: &'a S) -> (entry: Option<
        (&'a K, &'a V),
    >)
        where
            K: 'a,
        requires
            self.wf(store),
        ensures
            entry.is_none() <==> self@.dom().len() == 0,
            entry.is_some() ==> self@.contains_pair(*entry.unwrap().0, *entry.unwrap().1) && is_prev(
                self@,
                *entry.unwrap().0,
                None,
            ),
    {
        proof {
            self.lemma_empty(store.cells());
        }
        match self.first_item_address(store) {
            Some(addr) => {
                let item = self.item(store, addr).unwrap();
                Some((&item.key, &item.value))
            },
            None => None,
        }
    }

    /// The entry with the greatest key; `None` if the map is empty.
    pub fn last_key_value<'a, S: SlabView<Node<K, V>>>(&self, store: &'a S) -> (entry: Option<
        (&'a K, &'a V),
    >)
        where
            K: 'a,
        requires
            self.wf(store),
        ensures
            entry.is_none() <==> self@.dom().len() == 0,
            entry.is_some() ==> self@.contains_pair(*entry.unwrap().0, *entry.unwrap().1) && is_next(
                self@,
                *entry.unwrap().0,
                None,
            ),
    {
        proof {
            self.lemma_empty(store.cells());
        }
        match self.last_item_address(store) {
            Some(addr) => {
                let item = self.item(store, addr).unwrap();
                Some((&item.key, &item.value))
            },
            None => None,
        }
    }

    /// Takes the entry with the least key out of the map and returns it;
    /// `None` if the map is empty.
    pub fn pop_first<S: Slab<Node<K, V>>>(&mut self, store: &mut S) -> (entry: Option<(K, V)>)
        requires
            old(self).wf(old(store)),
        ensures
            final(self).wf(final(store)),
            entry.is_none() <==> old(self)@.dom().len() == 0,
            entry.is_none() ==> final(self)@ == old(self)@,
            entry.is_some() ==> {
                &&& old(self)@.contains_pair(entry.unwrap().0, entry.unwrap().1)
                &&& is_prev(old(self)@, entry.unwrap().0, None)
                &&& final(self)@ == old(self)@.remove(entry.unwrap().0)
            },
            evolves(old(store).cells(), final(store).cells(), old(self).nodes(), final(self).nodes()),
    {
        proof {
            self.lemma_empty(store.cells());
        }
        match self.first_item_address(store) {
            Some(addr) => {
                let (item, _) = self.remove_at(store, addr).unwrap();
                Some(item.into_pair())
            },
            None => {
                proof {
                    crate::remove::lemma_no_change(
                        store.cells(),
                        self.shape@.nodes,
                        self.root,
                        self.shape@,
                    );
                }
                None
            },
        }
    }

    /// Takes the entry with the greatest key out of the map and returns it;
    /// `None` if the map is empty.
    pub fn pop_last<S: Slab<Node<K, V>>>(&mut self, store: &mut S) -> (entry: Option<(K, V)>)
        requires
            old(self).wf(old(store)),
        ensures
            final(self).wf(final(store)),
            entry.is_none() <==> old(self)@.dom().len() == 0,
            entry.is_none() ==> final(self)@ == old(self)@,
            entry.is_some() ==> {
                &&& old(self)@.contains_pair(entry.unwrap().0, entry.unwrap().1)
                &&& is_next(old(self)@, entry.unwrap().0, None)
                &&& final(self)@ == old(self)@.remove(entry.unwrap().0)
            },
            evolves(old(store).cells(), final(store).cells(), old(self).nodes(), final(self).nodes()),
    {
        proof {
            self.lemma_empty(store.cells());
        }
        match self.last_item_address(store) {
            Some(addr) => {
                let (item, _) = self.remove_at(store, addr).unwrap();
                Some(item.into_pair())
            },
            None => {
                proof {
                    crate::remove::lemma_no_change(
                        store.cells(),
                        self.shape@.nodes,
                        self.root,
                        self.shape@,
                    );
                }
                None
            },
        }
    }

    /// Changes what is bound to `key` through `action`, which gets the value
    /// that is bound to the key, if any, and says what is to be bound to it,
    /// if anything. The value is taken out of the map before `action` runs.
    /// Returns what `action` returns beside the new value.
    pub fn update<S: Slab<Node<K, V>>, T, F: FnOnce(Option<V>) -> (Option<V>, T)>(
        &mut self,
        store: &mut S,
        key: K,
        action: F,
    ) -> (result: T)
        requires
            old(self).wf(old(store)),
            old(self)@.dom().len() < usize::MAX,
            call_requires(action, (lookup(old(self)@, key),)),
        ensures
            final(self).wf(final(store)),
            exists|new: Option<V>|
                {
                    &&& #[trigger] call_ensures(action, (lookup(old(self)@, key),), (new, result))
                    &&& final(self)@ == (match new {
                        Some(value) => old(self)@.insert(key, value),
                        None => old(self)@.remove(key),
                    })
                },
    {
        let ghost m0 = self@;
        let found = self.remove(store, &key);
        let ghost present = found;
        proof {
            if m0.dom().contains(key) {
                vstd::set_lib::lemma_set_empty_equivalency_len(m0.dom());
            } else {
                assert(self@ =~= m0);
            }
        }
        let (new, result) = action(found);
        match new {
            Some(value) => {
                self.insert(store, key, value);
                proof {
                    assert(self@ =~= m0.insert(key, value));
                    assert(call_ensures(action, (present,), (Some(value), result)));
                }
            },
            None => {
                proof {
                    assert(call_ensures(action, (present,), (None::<V>, result)));
                }
            },
        }
        result
    }

    /// Changes what is bound to the key of the item at `addr` through
    /// `action`, which gets the value of the item and says what is to be
    /// bound to the key, if anything. The item is taken out of the map before
    /// `action` runs. Returns what `action` returns beside the new value.
    pub fn update_at<S: Slab<Node<K, V>>, T, F: FnOnce(V) -> (Option<V>, T)>(
        &mut self,
        store: &mut S,
        addr: Address,
        action: F,
    ) -> (result: T)
        requires
            old(self).wf(old(store)),
            old(self).is_item_address(old(store).cells(), addr),
            call_requires(action, (old(self).item_of(old(store).cells(), addr).value,)),
        ensures
            final(self).wf(final(store)),
            exists|new: Option<V>|
                {
                    &&& #[trigger] call_ensures(
                        action,
                        (old(self).item_of(old(store).cells(), addr).value,),
                        (new, result),
                    )
                    &&& final(self)@ == (match new {
                        Some(value) => old(self)@.insert(
                            old(self).item_of(old(store).cells(), addr).key,
                            value,
                        ),
                        None => old(self)@.remove(old(self).item_of(old(store).cells(), addr).key),
                    })
                },
    {
        let ghost m0 = self@;
        let ghost held = self.item_of(store.cells(), addr);
        proof {
            self.lemma_item_is_entry(store.cells(), addr);
            vstd::set_lib::lemma_set_empty_equivalency_len(m0.dom());
        }
        let (item, _) = self.remove_at(store, addr).unwrap();
        let (key, value) = item.into_pair();
        let (new, result) = action(value);
        match new {
            Some(value) => {
                self.insert(store, key, value);
                proof {
                    assert(self@ =~= m0.insert(key, value));
                    assert(call_ensures(action, (held.value,), (Some(value), result)));
                }
            },
            None => {
                proof {
                    assert(call_ensures(action, (held.value,), (None::<V>, result)));
                }
            },
        }
        result
    }

    /// Changes what is bound to `key` through `action`, as `update` does,
    /// searching for the key from the node `id` downwards, in whose interval
    /// the key lies.
    pub fn update_in<S: Slab<Node<K, V>>, T, F: FnOnce(Option<V>) -> (Option<V>, T)>(
        &mut self,
        store: &mut S,
        id: usize,
        key: K,
        action: F,
    ) -> (result: T)
        requires
            old(self).wf(old(store)),
            old(self)@.dom().len() < usize::MAX,
            old(self).nodes().contains(id),
            old(self).key_fits(id, key),
            call_requires(action, (lookup(old(self)@, key),)),
        ensures
            final(self).wf(final(store)),
            exists|new: Option<V>|
                {
                    &&& #[trigger] call_ensures(action, (lookup(old(self)@, key),), (new, result))
                    &&& final(self)@ == (match new {
                        Some(value) => old(self)@.insert(key, value),
                        None => old(self)@.remove(key),
                    })
                },
    {
        let ghost m0 = self@;
        match self.address_in(store, id, &key) {
            Ok(addr) => {
                proof {
                    vstd::set_lib::lemma_set_empty_equivalency_len(m0.dom());
                }
                let (item, _) = self.remove_at(store, addr).unwrap();
                let (new, result) = action(Some(item.into_value()));
                match new {
                    Some(value) => {
                        self.insert(store, key, value);
                        proof {
                            assert(self@ =~= m0.insert(key, value));
                            assert(call_ensures(action, (lookup(m0, key),), (Some(value), result)));
                        }
                    },
                    None => {
                        proof {
                            assert(call_ensures(action, (lookup(m0, key),), (None::<V>, result)));
                        }
                    },
                }
                result
            },
            Err(addr) => {
                let (new, result) = action(None);
                match new {
                    Some(value) => {
                        self.insert_exactly_at(store, addr, Item::new(key, value), None);
                        proof {
                            assert(call_ensures(action, (lookup(m0, key),), (Some(value), result)));
                        }
                    },
                    None => {
                        proof {
                            assert(self@.remove(key) =~= self@);
                            assert(call_ensures(action, (lookup(m0, key),), (None::<V>, result)));
                        }
                    },
                }
                result
            },
        }
    }
}

} // verus!
