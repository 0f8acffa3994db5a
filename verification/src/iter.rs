//! Iteration over the entries of a map in key order, from both ends.

use vstd::prelude::*;
use crate::addr::Address;
use crate::map::BTreeMap;
use crate::node::Node;
use crate::order::{key_lt, lemma_order_laws, total_order};
use crate::slab::{Slab, SlabView};
use crate::tree::{is_next, is_prev, next_key};

verus! {

/// The keys of `model` from `from` on and before `to`, where no `from` stands
/// for no key at all and no `to` for no bound.
pub open spec fn keys_between<K: Ord, V>(model: Map<K, V>, from: Option<K>, to: Option<K>) -> Set<K> {
    Set::new(
        |q: K|
            model.dom().contains(q) && (match from {
                Some(f) => !key_lt(q, f),
                None => false,
            }) && (match to {
                Some(t) => key_lt(q, t),
                None => true,
            }),
    )
}

/// Iterates the entries of a map in key order. Entries can be taken from the
/// front and from the back until the two ends meet.
#[verifier::reject_recursive_types(K)]
pub struct Iter<'a, K, V, S> {
    map: &'a BTreeMap<K, V>,
    store: &'a S,
    /// The address of the next item from the front.
    addr: Option<Address>,
    /// The address of the item that was taken from the back last.
    end: Option<Address>,
    /// The number of entries still to come.
    len: usize,
}

impl<'a, K: Ord, V, S: SlabView<Node<K, V>>> Iter<'a, K, V, S> {
    /// The map that is iterated.
    pub closed spec fn map(&self) -> &'a BTreeMap<K, V> {
        self.map
    }

    /// The slab of the map.
    pub closed spec fn store(&self) -> &'a S {
        self.store
    }

    /// The key of the next entry from the front, unless the front has
    /// reached the end of the map.
    pub closed spec fn front(&self) -> Option<K> {
        match self.addr {
            Some(addr) => Some(self.map.item_of(self.store.cells(), addr).key),
            None => None,
        }
    }

    /// The key of the entry that was taken from the back last, if any was.
    pub closed spec fn back(&self) -> Option<K> {
        match self.end {
            Some(addr) => Some(self.map.item_of(self.store.cells(), addr).key),
            None => None,
        }
    }

    /// The keys of the entries still to come.
    pub open spec fn remaining(&self) -> Set<K> {
        keys_between(self.map()@, self.front(), self.back())
    }

    /// The iterator is in order: its ends are at items of the map and it
    /// knows how many entries are to come.
    pub closed spec fn wf(&self) -> bool {
        &&& self.map.wf(self.store)
        &&& match self.addr {
            Some(addr) => self.map.is_item_address(self.store.cells(), addr),
            None => true,
        }
        &&& match self.end {
            Some(addr) => self.map.is_item_address(self.store.cells(), addr),
            None => true,
        }
        &&& self.remaining().finite()
        &&& self.len == self.remaining().len()
    }

    /// The number of entries still to come.
    pub fn len(&self) -> (len: usize)
        requires
            self.wf(),
        ensures
            len == self.remaining().len(),
    {
        self.len
    }

    /// The number of entries still to come, as a lower and an upper bound.
    pub fn size_hint(&self) -> (hint: (usize, Option<usize>))
        requires
            self.wf(),
        ensures
            hint.0 == self.remaining().len(),
            hint.1 == Some(hint.0),
    {
        (self.len, Some(self.len))
    }

    /// The next entry from the front, without taking it.
    pub fn peek(&self) -> (entry: Option<(&'a K, &'a V)>)
        where
            K: 'a,
        requires
            self.wf(),
        ensures
            entry.is_some() <==> self.remaining().len() > 0,
            entry.is_none() <==> self.remaining() =~= Set::<K>::empty(),
            entry.is_some() ==> {
                &&& Some(*entry.unwrap().0) == self.front()
                &&& self.remaining().contains(*entry.unwrap().0)
                &&& self.map()@.contains_pair(*entry.unwrap().0, *entry.unwrap().1)
                &&& forall|q: K| self.remaining().contains(q) ==> !key_lt(q, *entry.unwrap().0)
            },
    {
        proof {
            self.lemma_front();
        }
        if self.len == 0 {
            return None;
        }
        let item = self.map.item(self.store, self.addr.unwrap()).unwrap();
        Some((&item.key, &item.value))
    }

    /// The next entry from the back, without taking it.
    pub fn peek_back(&self) -> (entry: Option<(&'a K, &'a V)>)
        where
            K: 'a,
        requires
            self.wf(),
        ensures
            entry.is_some() <==> self.remaining().len() > 0,
            entry.is_some() ==> {
                &&& self.remaining().contains(*entry.unwrap().0)
                &&& self.map()@.contains_pair(*entry.unwrap().0, *entry.unwrap().1)
                &&& forall|q: K| self.remaining().contains(q) ==> !key_lt(*entry.unwrap().0, q)
            },
    {
        proof {
            self.lemma_front();
            lemma_order_laws::<K>();
        }
        if self.len == 0 {
            return None;
        }
        let ghost witness = self.front().unwrap();
        let found = match self.end {
            Some(end) => self.map.previous_item_address(self.store, end),
            None => {
                proof {
                    self.map.lemma_empty(self.store.cells());
                    assert(self.map@.dom().contains(witness));
                    vstd::set_lib::lemma_set_empty_equivalency_len(self.map@.dom());
                }
                self.map.last_item_address(self.store)
            },
        };
        proof {
            if self.end.is_some() {
                assert(self.remaining().contains(witness));
                if found.is_none() {
                    assert(is_prev(self.map@, self.back().unwrap(), None::<K>));
                    assert(false);
                }
            }
        }
        let item = self.map.item(self.store, found.unwrap()).unwrap();
        Some((&item.key, &item.value))
    }

    /// The entries still to come are finitely many.
    pub proof fn lemma_finite(&self)
        requires
            self.wf(),
        ensures
            self.remaining().finite(),
            self.map().wf(self.store()),
    {
    }

    /// While entries are to come, the front is the least of their keys.
    proof fn lemma_front(&self)
        requires
            self.wf(),
        ensures
            self.remaining().len() > 0 ==> self.addr.is_some() && self.remaining().contains(
                self.front().unwrap(),
            ),
            forall|q: K| self.remaining().contains(q) ==> !key_lt(q, self.front().unwrap()),
            self.remaining().len() == 0 <==> self.remaining() =~= Set::<K>::empty(),
    {
        lemma_order_laws::<K>();
        let rest = self.remaining();
        vstd::set_lib::lemma_set_empty_equivalency_len(rest);
        if rest.len() > 0 {
            vstd::set_lib::lemma_set_empty_equivalency_len(rest);
            let q = choose|q: K| rest.contains(q);
            assert(rest.contains(q));
            let addr = self.addr.unwrap();
            self.map.lemma_item_is_entry(self.store.cells(), addr);
        }
    }

    /// Takes the next entry from the front: the one with the least key among
    /// those still to come.
    pub fn next(&mut self) -> (entry: Option<(&'a K, &'a V)>)
        where
            K: 'a,
        requires
            old(self).wf(),
        ensures
            final(self).wf(),
            final(self).map() == old(self).map(),
            final(self).store() == old(self).store(),
            final(self).back() == old(self).back(),
            entry.is_some() <==> old(self).remaining().len() > 0,
            entry.is_none() <==> old(self).remaining() =~= Set::<K>::empty(),
            entry.is_none() ==> final(self).remaining() == old(self).remaining(),
            entry.is_some() ==> {
                &&& Some(*entry.unwrap().0) == old(self).front()
                &&& old(self).remaining().contains(*entry.unwrap().0)
                &&& old(self).map()@.contains_pair(*entry.unwrap().0, *entry.unwrap().1)
                &&& forall|q: K| old(self).remaining().contains(q) ==> !key_lt(q, *entry.unwrap().0)
                &&& final(self).remaining() == old(self).remaining().remove(*entry.unwrap().0)
            },
    {
        proof {
            self.lemma_front();
            lemma_order_laws::<K>();
        }
        if self.len == 0 {
            return None;
        }
        let ghost rest = self.remaining();
        let map: &'a BTreeMap<K, V> = self.map;
        let store: &'a S = self.store;
        let addr = self.addr.unwrap();
        let item = map.item(store, addr).unwrap();
        let ghost k = item.key;
        self.addr = map.next_item_address(store, addr);
        self.len = self.len - 1;
        proof {
            let model = map@;
            let cells = store.cells();
            let following = next_key(model, k);
            assert(self.front() == following);
            if following.is_none() {
                assert(is_next(model, k, None::<K>)) by {
                    if exists|s: K| is_next(model, k, Some(s)) {
                    }
                    lemma_no_next(model, k);
                }
            } else {
                lemma_has_next(model, k);
            }
            assert(self.remaining() =~= rest.remove(k)) by {
                assert forall|q: K| self.remaining().contains(q) <==> rest.remove(k).contains(q) by {
                    if model.dom().contains(q) && q != k && !key_lt(q, k) {
                        assert(key_lt(k, q));
                    }
                }
            }
        }
        Some((&item.key, &item.value))
    }

    /// Takes the next entry from the back: the one with the greatest key
    /// among those still to come.
    pub fn next_back(&mut self) -> (entry: Option<(&'a K, &'a V)>)
        where
            K: 'a,
        requires
            old(self).wf(),
        ensures
            final(self).wf(),
            final(self).map() == old(self).map(),
            final(self).store() == old(self).store(),
            final(self).front() == old(self).front(),
            entry.is_some() <==> old(self).remaining().len() > 0,
            entry.is_none() ==> final(self).remaining() == old(self).remaining(),
            entry.is_some() ==> {
                &&& old(self).remaining().contains(*entry.unwrap().0)
                &&& old(self).map()@.contains_pair(*entry.unwrap().0, *entry.unwrap().1)
                &&& forall|q: K| old(self).remaining().contains(q) ==> !key_lt(*entry.unwrap().0, q)
                &&& final(self).remaining() == old(self).remaining().remove(*entry.unwrap().0)
            },
    {
        proof {
            self.lemma_front();
            lemma_order_laws::<K>();
        }
        if self.len == 0 {
            return None;
        }
        let ghost rest = self.remaining();
        let ghost witness = self.front().unwrap();
        let map: &'a BTreeMap<K, V> = self.map;
        let store: &'a S = self.store;
        let found = match self.end {
            Some(end) => map.previous_item_address(store, end),
            None => {
                proof {
                    map.lemma_empty(store.cells());
                    assert(map@.dom().contains(witness));
                    vstd::set_lib::lemma_set_empty_equivalency_len(map@.dom());
                }
                map.last_item_address(store)
            },
        };
        proof {
            if self.end.is_some() {
                let bound = self.back().unwrap();
                assert(rest.contains(witness));
                if found.is_none() {
                    assert(is_prev(map@, bound, None::<K>));
                    assert(false);
                }
            }
        }
        let addr = found.unwrap();
        let item = map.item(store, addr).unwrap();
        let ghost k = item.key;
        self.end = Some(addr);
        self.len = self.len - 1;
        proof {
            let model = map@;
            assert(rest.contains(k));
            assert(self.remaining() =~= rest.remove(k)) by {
                assert forall|q: K| self.remaining().contains(q) <==> rest.remove(k).contains(q) by {
                    if model.dom().contains(q) && q != k && !key_lt(k, q) {
                        assert(key_lt(q, k));
                    }
                }
            }
        }
        Some((&item.key, &item.value))
    }
}

/// Iterates the keys of a map in order.
#[verifier::reject_recursive_types(K)]
pub struct Keys<'a, K, V, S> {
    inner: Iter<'a, K, V, S>,
}

/// Iterates the values of a map in the order of their keys.
#[verifier::reject_recursive_types(K)]
pub struct Values<'a, K, V, S> {
    inner: Iter<'a, K, V, S>,
}

impl<'a, K: Ord, V, S: SlabView<Node<K, V>>> Keys<'a, K, V, S> {
    /// The iterator over the entries that gives the keys.
    pub closed spec fn entries(&self) -> Iter<'a, K, V, S> {
        self.inner
    }

    /// Takes the least of the keys still to come.
    pub fn next(&mut self) -> (key: Option<&'a K>)
        where
            K: 'a,
            V: 'a,
        requires
            old(self).entries().wf(),
        ensures
            final(self).entries().wf(),
            final(self).entries().map() == old(self).entries().map(),
            key.is_some() <==> old(self).entries().remaining().len() > 0,
            key.is_none() ==> final(self).entries().remaining() == old(self).entries().remaining(),
            key.is_some() ==> {
                &&& old(self).entries().remaining().contains(*key.unwrap())
                &&& forall|q: K| old(self).entries().remaining().contains(q) ==> !key_lt(q, *key.unwrap())
                &&& final(self).entries().remaining() == old(self).entries().remaining().remove(
                    *key.unwrap(),
                )
            },
    {
        match self.inner.next() {
            Some((key, _)) => Some(key),
            None => None,
        }
    }

    /// Takes the greatest of the keys still to come.
    pub fn next_back(&mut self) -> (key: Option<&'a K>)
        where
            K: 'a,
            V: 'a,
        requires
            old(self).entries().wf(),
        ensures
            final(self).entries().wf(),
            final(self).entries().map() == old(self).entries().map(),
            key.is_some() <==> old(self).entries().remaining().len() > 0,
            key.is_none() ==> final(self).entries().remaining() == old(self).entries().remaining(),
            key.is_some() ==> {
                &&& old(self).entries().remaining().contains(*key.unwrap())
                &&& forall|q: K| old(self).entries().remaining().contains(q) ==> !key_lt(*key.unwrap(), q)
                &&& final(self).entries().remaining() == old(self).entries().remaining().remove(
                    *key.unwrap(),
                )
            },
    {
        match self.inner.next_back() {
            Some((key, _)) => Some(key),
            None => None,
        }
    }
}

impl<'a, K: Ord, V, S: SlabView<Node<K, V>>> Values<'a, K, V, S> {
    /// The iterator over the entries that gives the values.
    pub closed spec fn entries(&self) -> Iter<'a, K, V, S> {
        self.inner
    }

    /// Takes the value of the least of the keys still to come.
    pub fn next(&mut self) -> (value: Option<&'a V>)
        where
            K: 'a,
            V: 'a,
        requires
            old(self).entries().wf(),
        ensures
            final(self).entries().wf(),
            final(self).entries().map() == old(self).entries().map(),
            value.is_some() <==> old(self).entries().remaining().len() > 0,
            value.is_none() ==> final(self).entries().remaining() == old(self).entries().remaining(),
            value.is_some() ==> {
                &&& old(self).entries().front().is_some()
                &&& *value.unwrap() == old(self).entries().map()@[old(self).entries().front().unwrap()]
                &&& final(self).entries().remaining() == old(self).entries().remaining().remove(
                    old(self).entries().front().unwrap(),
                )
            },
    {
        match self.inner.next() {
            Some((_, value)) => Some(value),
            None => None,
        }
    }
}

impl<K: Ord, V> BTreeMap<K, V> {
    /// An iterator over the keys of the map in order.
    pub fn keys<'a, S: SlabView<Node<K, V>>>(&'a self, store: &'a S) -> (keys: Keys<'a, K, V, S>)
        requires
            self.wf(store),
        ensures
            keys.entries().wf(),
            keys.entries().map() == self,
            keys.entries().remaining() == self@.dom(),
    {
        Keys { inner: self.iter(store) }
    }

    /// An iterator over the values of the map in the order of their keys.
    pub fn values<'a, S: SlabView<Node<K, V>>>(&'a self, store: &'a S) -> (values: Values<'a, K, V, S>)
        requires
            self.wf(store),
        ensures
            values.entries().wf(),
            values.entries().map() == self,
            values.entries().remaining() == self@.dom(),
    {
        Values { inner: self.iter(store) }
    }
}

/// Where no next key is chosen there is none.
pub proof fn lemma_no_next<K: Ord, V>(model: Map<K, V>, k: K)
    requires
        total_order::<K>(),
        model.dom().finite(),
        next_key(model, k).is_none(),
    ensures
        is_next(model, k, None::<K>),
{
    lemma_order_laws::<K>();
    if !is_next(model, k, None::<K>) {
        let above = model.dom().filter(|q: K| key_lt(k, q));
        let q0 = choose|q: K| model.dom().contains(q) && key_lt(k, q);
        assert(above.contains(q0));
        lemma_least(above);
        let least = choose|s: K| above.contains(s) && forall|q: K| above.contains(q) ==> !key_lt(q, s);
        assert(is_next(model, k, Some(least))) by {
            assert forall|q: K| #[trigger] model.dom().contains(q) && key_lt(k, q) implies !key_lt(
                q,
                least,
            ) by {
                assert(above.contains(q));
            }
        }
    }
}

/// The next key that is chosen is the next key.
pub proof fn lemma_has_next<K: Ord, V>(model: Map<K, V>, k: K)
    requires
        next_key(model, k).is_some(),
    ensures
        is_next(model, k, next_key(model, k)),
{
}

/// A finite set of keys that is not empty has a least key.
pub proof fn lemma_least<K: Ord>(keys: Set<K>)
    requires
        total_order::<K>(),
        keys.finite(),
        keys.len() > 0,
    ensures
        exists|s: K| keys.contains(s) && forall|q: K| keys.contains(q) ==> !key_lt(q, s),
    decreases keys.len(),
{
    let x = keys.choose();
    assert(keys.contains(x));
    if exists|y: K| keys.contains(y) && key_lt(y, x) {
        let y = choose|y: K| keys.contains(y) && key_lt(y, x);
        let rest = keys.remove(x);
        assert(rest.finite());
        assert(rest.len() == keys.len() - 1);
        assert(rest.contains(y)) by {
            lemma_order_laws::<K>();
        }
        assert(rest.len() > 0);
        lemma_least(rest);
        let s = choose|s: K| rest.contains(s) && forall|q: K| rest.contains(q) ==> !key_lt(q, s);
        assert(!key_lt(y, s));
        assert(!key_lt(x, s)) by {
            lemma_order_laws::<K>();
        }
        assert forall|q: K| keys.contains(q) implies !key_lt(q, s) by {
            if q != x {
                assert(rest.contains(q));
            }
        }
        assert(keys.contains(s));
    }
}

impl<K: Ord, V> BTreeMap<K, V> {
    /// An iterator over the entries of the map in key order.
    pub fn iter<'a, S: SlabView<Node<K, V>>>(&'a self, store: &'a S) -> (iter: Iter<'a, K, V, S>)
        requires
            self.wf(store),
        ensures
            iter.wf(),
            iter.map() == self,
            iter.store() == store,
            iter.remaining() == self@.dom(),
            iter.back().is_none(),
    {
        let addr = self.first_item_address(store);
        let iter = Iter { map: self, store, addr, end: None, len: self.len };
        proof {
            lemma_order_laws::<K>();
            self.lemma_empty(store.cells());
            assert(iter.remaining() =~= self@.dom());
        }
        iter
    }

    /// The entries of the map in key order.
    #[verifier::rlimit(50)]
    pub fn to_vec<'a, S: SlabView<Node<K, V>>>(&'a self, store: &'a S) -> (entries: Vec<(&'a K, &'a V)>)
        requires
            self.wf(store),
        ensures
            entries@.len() == self@.dom().len(),
            forall|i: int|
                0 <= i < entries@.len() ==> self@.contains_pair(
                    *(#[trigger] entries@[i]).0,
                    *entries@[i].1,
                ),
            forall|i: int, j: int|
                0 <= i < j < entries@.len() ==> key_lt(*(#[trigger] entries@[i]).0, *(#[trigger] entries@[j]).0),
            forall|k: K|
                self@.dom().contains(k) ==> exists|i: int|
                    0 <= i < entries@.len() && *(#[trigger] entries@[i]).0 == k,
    {
        let mut iter = self.iter(store);
        let mut entries: Vec<(&'a K, &'a V)> = Vec::new();
        loop
            invariant
                iter.wf(),
                iter.map() == self,
                iter.store() == store,
                iter.back().is_none(),
                self.wf(store),
                iter.remaining().subset_of(self@.dom()),
                entries@.len() + iter.remaining().len() == self@.dom().len(),
                forall|i: int|
                    0 <= i < entries@.len() ==> self@.contains_pair(
                        *(#[trigger] entries@[i]).0,
                        *entries@[i].1,
                    ) && !iter.remaining().contains(*entries@[i].0),
                forall|i: int, q: K|
                    #![trigger entries@[i], iter.remaining().contains(q)]
                    0 <= i < entries@.len() && iter.remaining().contains(q) ==> key_lt(
                        *entries@[i].0,
                        q,
                    ),
                forall|i: int, j: int|
                    0 <= i < j < entries@.len() ==> key_lt(
                        *(#[trigger] entries@[i]).0,
                        *(#[trigger] entries@[j]).0,
                    ),
                forall|k: K|
                    self@.dom().contains(k) && !iter.remaining().contains(k) ==> exists|i: int|
                        0 <= i < entries@.len() && *(#[trigger] entries@[i]).0 == k,
            decreases iter.remaining().len(),
        {
            let ghost rest = iter.remaining();
            let ghost before = entries@;
            match iter.next() {
                Some(entry) => {
                    entries.push(entry);
                    proof {
                        lemma_order_laws::<K>();
                        let k = *entry.0;
                        let after = entries@;
                        assert forall|i: int, q: K|
                            #![trigger after[i], iter.remaining().contains(q)]
                            0 <= i < after.len() && iter.remaining().contains(q) implies key_lt(
                            *after[i].0,
                            q,
                        ) by {
                            assert(rest.contains(q));
                            if i < before.len() {
                                assert(after[i] == before[i]);
                            } else {
                                assert(!key_lt(q, k));
                            }
                        }
                        assert forall|i: int, j: int| 0 <= i < j < after.len() implies key_lt(
                            *(#[trigger] after[i]).0,
                            *(#[trigger] after[j]).0,
                        ) by {
                            assert(after[i] == before[i]);
                            if j < before.len() {
                                assert(after[j] == before[j]);
                            }
                        }
                        assert forall|q: K|
                            self@.dom().contains(q) && !iter.remaining().contains(q) implies exists|
                            i: int,
                        | 0 <= i < after.len() && *(#[trigger] after[i]).0 == q by {
                            if q == k {
                                assert(*after[before.len() as int].0 == q);
                            } else {
                                assert(!rest.contains(q));
                                let i = choose|i: int| 0 <= i < before.len() && *(#[trigger] before[i]).0 == q;
                                assert(after[i] == before[i]);
                            }
                        }
                        assert forall|i: int| 0 <= i < after.len() implies self@.contains_pair(
                            *(#[trigger] after[i]).0,
                            *after[i].1,
                        ) && !iter.remaining().contains(*after[i].0) by {
                            if i < before.len() {
                                assert(after[i] == before[i]);
                            }
                        }
                    }
                },
                None => {
                    proof {
                        vstd::set_lib::lemma_set_empty_equivalency_len(rest);
                        assert(iter.remaining() == rest);
                        assert forall|k: K| self@.dom().contains(k) implies exists|i: int|
                            0 <= i < entries@.len() && *(#[trigger] entries@[i]).0 == k by {
                            assert(!rest.contains(k));
                        }
                    }
                    return entries;
                },
            }
        }
    }
}

} // verus!
