//! An ordered set shaped as a B-tree whose nodes live in a slab that the
//! caller supplies: a map from the elements to nothing.

use vstd::prelude::*;
use crate::iter::Iter;
use crate::map::BTreeMap;
use crate::node::Node;
use crate::order::key_lt;
use crate::range::{after_start, before_end, valid_range, Bound, Range};
use crate::slab::{Slab, SlabView};
use crate::tree::{evolves, Cells};

verus! {

/// A set of elements, kept in order.
#[verifier::reject_recursive_types(T)]
pub struct BTreeSet<T> {
    map: BTreeMap<T, ()>,
}

impl<T> View for BTreeSet<T> {
    type V = Set<T>;

    open spec fn view(&self) -> Set<T> {
        self.as_map()@.dom()
    }
}

impl<T> BTreeSet<T> {
    /// The map from the elements to nothing that the set is.
    pub closed spec fn as_map(&self) -> BTreeMap<T, ()> {
        self.map
    }
}

impl<T: Ord> BTreeSet<T> {
    /// The cells of the slab that are the nodes of this set.
    pub open spec fn nodes(&self) -> Set<usize> {
        self.as_map().nodes()
    }

    /// The set is well formed in `store`: its map is.
    pub open spec fn wf<S: SlabView<Node<T, ()>>>(&self, store: &S) -> bool {
        self.as_map().wf(store)
    }

    /// Creates an empty set. It has no nodes, so it is well formed in every
    /// slab.
    pub fn new() -> (set: Self)
        ensures
            set@ == Set::<T>::empty(),
            set.nodes() == Set::<usize>::empty(),
            set.as_map().counted(),
            forall|cells: Cells<T, ()>| set.as_map().inv(cells),
    {
        BTreeSet { map: BTreeMap::new() }
    }

    /// Creates an empty set whose nodes will live in `store`.
    pub fn new_in<S: SlabView<Node<T, ()>>>(store: &S) -> (set: Self)
        ensures
            set@ == Set::<T>::empty(),
            set.nodes() == Set::<usize>::empty(),
            set.as_map().counted(),
            forall|cells: Cells<T, ()>| set.as_map().inv(cells),
    {
        BTreeSet { map: BTreeMap::new_in(store) }
    }

    /// The number of elements.
    pub fn len(&self) -> (len: usize)
        ensures
            self.as_map().counted() ==> len == self@.len(),
    {
        self.map.len()
    }

    /// Whether the set has no elements.
    pub fn is_empty(&self) -> (r: bool)
        ensures
            self.as_map().counted() ==> (r <==> self@.len() == 0),
    {
        self.map.is_empty()
    }

    /// Whether `value` is an element of the set.
    pub fn contains<S: SlabView<Node<T, ()>>>(&self, store: &S, value: &T) -> (r: bool)
        requires
            self.wf(store),
        ensures
            r <==> self@.contains(*value),
    {
        self.map.contains_key(store, value)
    }

    /// The element of the set that equals `value`, if there is one.
    pub fn get<'a, S: SlabView<Node<T, ()>>>(&self, store: &'a S, value: &T) -> (found: Option<&'a T>)
        where
            T: 'a,
        requires
            self.wf(store),
        ensures
            found.is_some() <==> self@.contains(*value),
            found.is_some() ==> *found.unwrap() == *value,
    {
        match self.map.get_key_value(store, value) {
            Some((element, _)) => Some(element),
            None => None,
        }
    }

    /// The least element; `None` if the set is empty.
    pub fn first<'a, S: SlabView<Node<T, ()>>>(&self, store: &'a S) -> (found: Option<&'a T>)
        where
            T: 'a,
        requires
            self.wf(store),
        ensures
            found.is_none() <==> self@.len() == 0,
            found.is_some() ==> self@.contains(*found.unwrap()) && forall|q: T|
                self@.contains(q) ==> !key_lt(q, *found.unwrap()),
    {
        match self.map.first_key_value(store) {
            Some((element, _)) => Some(element),
            None => None,
        }
    }

    /// The greatest element; `None` if the set is empty.
    pub fn last<'a, S: SlabView<Node<T, ()>>>(&self, store: &'a S) -> (found: Option<&'a T>)
        where
            T: 'a,
        requires
            self.wf(store),
        ensures
            found.is_none() <==> self@.len() == 0,
            found.is_some() ==> self@.contains(*found.unwrap()) && forall|q: T|
                self@.contains(q) ==> !key_lt(*found.unwrap(), q),
    {
        match self.map.last_key_value(store) {
            Some((element, _)) => Some(element),
            None => None,
        }
    }

    /// Puts `element` into the set. Returns whether it was not in the set
    /// before.
    pub fn insert<S: Slab<Node<T, ()>>>(&mut self, store: &mut S, element: T) -> (fresh: bool)
        requires
            old(self).wf(old(store)),
            old(self)@.len() < usize::MAX,
        ensures
            final(self).wf(final(store)),
            final(self)@ == old(self)@.insert(element),
            fresh <==> !old(self)@.contains(element),
            evolves(old(store).cells(), final(store).cells(), old(self).nodes(), final(self).nodes()),
    {
        self.map.insert(store, element, ()).is_none()
    }

    /// Puts `value` into the set in the place of the element that equals it,
    /// if there is one, and returns that element.
    pub fn replace<S: Slab<Node<T, ()>>>(&mut self, store: &mut S, value: T) -> (previous: Option<T>)
        requires
            old(self).wf(old(store)),
            old(self)@.len() < usize::MAX,
        ensures
            final(self).wf(final(store)),
            final(self)@ == old(self)@.insert(value),
            previous == (if old(self)@.contains(value) {
                Some(value)
            } else {
                None::<T>
            }),
            evolves(old(store).cells(), final(store).cells(), old(self).nodes(), final(self).nodes()),
    {
        let ghost c0 = store.cells();
        let ghost n0 = self.nodes();
        let ghost m0 = self.map@;
        proof {
            self.map.lemma_nodes_occupied(c0);
        }
        let taken = self.map.remove_entry(store, &value);
        let ghost c1 = store.cells();
        let ghost n1 = self.nodes();
        proof {
            self.map.lemma_nodes_occupied(c1);
            if m0.dom().contains(value) {
                vstd::set_lib::lemma_set_empty_equivalency_len(m0.dom());
            } else {
                assert(self.map@ =~= m0);
            }
        }
        self.map.insert(store, value, ());
        proof {
            crate::insert::lemma_evolves_trans(c0, c1, store.cells(), n0, n1, self.nodes());
            assert(self@ =~= m0.dom().insert(value));
        }
        match taken {
            Some((element, _)) => Some(element),
            None => None,
        }
    }

    /// Takes `value` out of the set. Returns whether it was in the set.
    pub fn remove<S: Slab<Node<T, ()>>>(&mut self, store: &mut S, value: &T) -> (found: bool)
        requires
            old(self).wf(old(store)),
        ensures
            final(self).wf(final(store)),
            final(self)@ == old(self)@.remove(*value),
            found <==> old(self)@.contains(*value),
            evolves(old(store).cells(), final(store).cells(), old(self).nodes(), final(self).nodes()),
    {
        self.map.remove(store, value).is_some()
    }

    /// Takes the element that equals `value` out of the set and returns it, if
    /// there is one.
    pub fn take<S: Slab<Node<T, ()>>>(&mut self, store: &mut S, value: &T) -> (taken: Option<T>)
        requires
            old(self).wf(old(store)),
        ensures
            final(self).wf(final(store)),
            final(self)@ == old(self)@.remove(*value),
            taken == (if old(self)@.contains(*value) {
                Some(*value)
            } else {
                None::<T>
            }),
            evolves(old(store).cells(), final(store).cells(), old(self).nodes(), final(self).nodes()),
    {
        match self.map.remove_entry(store, value) {
            Some((element, _)) => Some(element),
            None => None,
        }
    }

    /// Takes the least element out of the set and returns it; `None` if the
    /// set is empty.
    pub fn pop_first<S: Slab<Node<T, ()>>>(&mut self, store: &mut S) -> (taken: Option<T>)
        requires
            old(self).wf(old(store)),
        ensures
            final(self).wf(final(store)),
            taken.is_none() <==> old(self)@.len() == 0,
            taken.is_none() ==> final(self)@ == old(self)@,
            taken.is_some() ==> {
                &&& old(self)@.contains(taken.unwrap())
                &&& forall|q: T| old(self)@.contains(q) ==> !key_lt(q, taken.unwrap())
                &&& final(self)@ == old(self)@.remove(taken.unwrap())
            },
            evolves(old(store).cells(), final(store).cells(), old(self).nodes(), final(self).nodes()),
    {
        match self.map.pop_first(store) {
            Some((element, _)) => Some(element),
            None => None,
        }
    }

    /// Takes the greatest element out of the set and returns it; `None` if the
    /// set is empty.
    pub fn pop_last<S: Slab<Node<T, ()>>>(&mut self, store: &mut S) -> (taken: Option<T>)
        requires
            old(self).wf(old(store)),
        ensures
            final(self).wf(final(store)),
            taken.is_none() <==> old(self)@.len() == 0,
            taken.is_none() ==> final(self)@ == old(self)@,
            taken.is_some() ==> {
                &&& old(self)@.contains(taken.unwrap())
                &&& forall|q: T| old(self)@.contains(q) ==> !key_lt(taken.unwrap(), q)
                &&& final(self)@ == old(self)@.remove(taken.unwrap())
            },
            evolves(old(store).cells(), final(store).cells(), old(self).nodes(), final(self).nodes()),
    {
        match self.map.pop_last(store) {
            Some((element, _)) => Some(element),
            None => None,
        }
    }

    /// Takes all elements out of the set.
    pub fn clear<S: Slab<Node<T, ()>>>(&mut self, store: &mut S)
        requires
            old(self).wf(old(store)),
        ensures
            final(self).wf(final(store)),
            final(self)@ == Set::<T>::empty(),
            final(self).nodes() == Set::<usize>::empty(),
            evolves(old(store).cells(), final(store).cells(), old(self).nodes(), final(self).nodes())
                || final(store).cells() == Map::<usize, Node<T, ()>>::empty(),
    {
        self.map.clear(store);
    }

    /// Moves all elements of `other`, a set in the same slab, into this set.
    /// `other` is empty afterwards.
    pub fn append<S: Slab<Node<T, ()>>>(&mut self, store: &mut S, other: &mut Self)
        requires
            old(self).wf(old(store)),
            old(other).wf(old(store)),
            old(self).nodes().disjoint(old(other).nodes()),
            old(self)@.len() + old(other)@.len() < usize::MAX,
        ensures
            final(self).wf(final(store)),
            final(other).wf(final(store)),
            final(self).nodes().disjoint(final(other).nodes()),
            final(self)@ == old(self)@.union(old(other)@),
            final(other)@ == Set::<T>::empty(),
            evolves(
                old(store).cells(),
                final(store).cells(),
                old(self).nodes().union(old(other).nodes()),
                final(self).nodes(),
            ),
    {
        let ghost a = self.map@;
        let ghost b = other.map@;
        self.map.append(store, &mut other.map);
        proof {
            assert(a.union_prefer_right(b).dom() =~= a.dom().union(b.dom()));
        }
    }

    /// The elements of the set in order.
    pub fn to_vec<'a, S: SlabView<Node<T, ()>>>(&'a self, store: &'a S) -> (elements: Vec<&'a T>)
        requires
            self.wf(store),
        ensures
            elements@.len() == self@.len(),
            forall|i: int| 0 <= i < elements@.len() ==> self@.contains(*#[trigger] elements@[i]),
            forall|i: int, j: int|
                0 <= i < j < elements@.len() ==> key_lt(*#[trigger] elements@[i], *#[trigger] elements@[j]),
            forall|q: T|
                self@.contains(q) ==> exists|i: int| 0 <= i < elements@.len() && *#[trigger] elements@[i] == q,
    {
        let entries = self.map.to_vec(store);
        let mut elements: Vec<&'a T> = Vec::new();
        let mut i: usize = 0;
        while i < entries.len()
            invariant
                i <= entries.len(),
                elements@.len() == i,
                forall|j: int| 0 <= j < i ==> *#[trigger] elements@[j] == *entries@[j].0,
            decreases entries.len() - i,
        {
            elements.push(entries[i].0);
            i = i + 1;
        }
        proof {
            assert forall|q: T| self@.contains(q) implies exists|i: int|
                0 <= i < elements@.len() && *#[trigger] elements@[i] == q by {
                let i = choose|i: int| 0 <= i < entries@.len() && *(#[trigger] entries@[i]).0 == q;
                assert(*elements@[i] == q);
            }
            assert forall|i: int, j: int| 0 <= i < j < elements@.len() implies key_lt(
                *#[trigger] elements@[i],
                *#[trigger] elements@[j],
            ) by {
                assert(key_lt(*entries@[i].0, *entries@[j].0));
            }
            assert forall|i: int| 0 <= i < elements@.len() implies self@.contains(
                *#[trigger] elements@[i],
            ) by {
                assert(self.map@.contains_pair(*entries@[i].0, *entries@[i].1));
            }
        }
        elements
    }

    /// An iterator over the elements of the set in order.
    pub fn iter<'a, S: SlabView<Node<T, ()>>>(&'a self, store: &'a S) -> (iter: Iter<'a, T, (), S>)
        requires
            self.wf(store),
        ensures
            iter.wf(),
            iter.map()@.dom() == self@,
            iter.store() == store,
            iter.remaining() == self@,
            iter.back().is_none(),
    {
        self.map.iter(store)
    }

    /// An iterator over the elements of the set that lie between `start` and
    /// `end`, in order.
    pub fn range<'a, S: SlabView<Node<T, ()>>>(
        &'a self,
        store: &'a S,
        start: Bound<&T>,
        end: Bound<&T>,
    ) -> (range: Range<'a, T, (), S>)
        requires
            self.wf(store),
            valid_range(start, end),
        ensures
            range.wf(),
            range.store() == store,
            forall|q: T|
                range.remaining().contains(q) <==> self@.contains(q) && after_start(start, q)
                    && before_end(end, q),
    {
        self.map.range(store, start, end)
    }

    /// Takes the elements that `pred` picks out of the set and returns them
    /// in order.
    pub fn drain_filter<S: Slab<Node<T, ()>>, F: Fn(&T) -> bool>(&mut self, store: &mut S, pred: F) -> (drained:
        Vec<T>)
        requires
            old(self).wf(old(store)),
            forall|q: T| #[trigger] old(self)@.contains(q) ==> call_requires(pred, (&q,)),
        ensures
            final(self).wf(final(store)),
            evolves(old(store).cells(), final(store).cells(), old(self).nodes(), final(self).nodes()),
            final(self)@.subset_of(old(self)@),
            forall|i: int|
                0 <= i < drained@.len() ==> old(self)@.contains(#[trigger] drained@[i])
                    && !final(self)@.contains(drained@[i])
                    && call_ensures(pred, (&drained@[i],), true),
            forall|i: int, j: int|
                0 <= i < j < drained@.len() ==> key_lt(#[trigger] drained@[i], #[trigger] drained@[j]),
            forall|q: T| #[trigger] final(self)@.contains(q) ==> call_ensures(pred, (&q,), false),
            forall|q: T|
                old(self)@.contains(q) && !final(self)@.contains(q) ==> exists|i: int|
                    0 <= i < drained@.len() && #[trigger] drained@[i] == q,
    {
        let ghost m0 = self.map@;
        let pred_ref = &pred;
        let on_entry = |k: &T, v: &()| -> (b: bool)
            requires
                call_requires(pred_ref, (k,)),
            ensures
                call_ensures(pred_ref, (k,), b),
            { pred_ref(k) };
        proof {
            assert forall|k: T, v: ()| #[trigger] m0.contains_pair(k, v) implies call_requires(
                on_entry,
                (&k, &v),
            ) by {
                assert(self@.contains(k));
            }
        }
        let entries = self.map.drain_filter(store, on_entry);
        let mut drained: Vec<T> = Vec::new();
        let ghost pairs = entries@;
        let mut entries = entries;
        // the entries are taken from the back, and put in order again below
        let mut reversed: Vec<T> = Vec::new();
        while entries.len() > 0
            invariant
                entries@.len() + reversed@.len() == pairs.len(),
                entries@ == pairs.subrange(0, entries@.len() as int),
                forall|j: int|
                    0 <= j < reversed@.len() ==> #[trigger] reversed@[j] == pairs[pairs.len() - 1 - j].0,
            decreases entries.len(),
        {
            let (element, _) = entries.pop().unwrap();
            reversed.push(element);
        }
        while reversed.len() > 0
            invariant
                reversed@.len() + drained@.len() == pairs.len(),
                forall|j: int|
                    0 <= j < reversed@.len() ==> #[trigger] reversed@[j] == pairs[pairs.len() - 1 - j].0,
                forall|j: int| 0 <= j < drained@.len() ==> #[trigger] drained@[j] == pairs[j].0,
            decreases reversed.len(),
        {
            let element = reversed.pop().unwrap();
            drained.push(element);
        }
        proof {
            assert forall|j: int| 0 <= j < drained@.len() implies old(self)@.contains(
                #[trigger] drained@[j],
            ) && !self@.contains(drained@[j]) && call_ensures(pred, (&drained@[j],), true) by {
                assert(m0.contains_pair(pairs[j].0, pairs[j].1));
                assert(call_ensures(on_entry, (&pairs[j].0, &pairs[j].1), true));
            }
            assert forall|a: int, b: int| 0 <= a < b < drained@.len() implies key_lt(
                #[trigger] drained@[a],
                #[trigger] drained@[b],
            ) by {
                assert(key_lt(pairs[a].0, pairs[b].0));
            }
            assert forall|q: T| #[trigger] self@.contains(q) implies call_ensures(pred, (&q,), false) by {
                assert(call_ensures(on_entry, (&q, &self.map@[q]), false));
            }
            assert forall|q: T| old(self)@.contains(q) && !self@.contains(q) implies exists|j: int|
                0 <= j < drained@.len() && #[trigger] drained@[j] == q by {
                let j = choose|j: int| 0 <= j < pairs.len() && (#[trigger] pairs[j]).0 == q;
                assert(drained@[j] == q);
            }
        }
        drained
    }

    /// Keeps the elements that `keep` picks and drops the others.
    pub fn retain<S: Slab<Node<T, ()>>, F: Fn(&T) -> bool>(&mut self, store: &mut S, keep: F)
        requires
            old(self).wf(old(store)),
            forall|q: T| #[trigger] old(self)@.contains(q) ==> call_requires(keep, (&q,)),
        ensures
            final(self).wf(final(store)),
            evolves(old(store).cells(), final(store).cells(), old(self).nodes(), final(self).nodes()),
            final(self)@.subset_of(old(self)@),
            forall|q: T| #[trigger] final(self)@.contains(q) ==> call_ensures(keep, (&q,), true),
            forall|q: T|
                #![trigger old(self)@.contains(q)]
                old(self)@.contains(q) && !final(self)@.contains(q) ==> call_ensures(keep, (&q,), false),
    {
        let ghost m0 = self.map@;
        let keep_ref = &keep;
        let on_entry = |k: &T, v: &()| -> (b: bool)
            requires
                call_requires(keep_ref, (k,)),
            ensures
                call_ensures(keep_ref, (k,), b),
            { keep_ref(k) };
        proof {
            assert forall|k: T, v: ()| #[trigger] m0.contains_pair(k, v) implies call_requires(
                on_entry,
                (&k, &v),
            ) by {
                assert(self@.contains(k));
            }
        }
        self.map.retain(store, on_entry);
        proof {
            assert forall|q: T| #[trigger] self@.contains(q) implies call_ensures(keep, (&q,), true) by {
                assert(call_ensures(on_entry, (&q, &self.map@[q]), true));
            }
            assert forall|q: T|
                #![trigger old(self)@.contains(q)]
                old(self)@.contains(q) && !self@.contains(q) implies call_ensures(keep, (&q,), false) by {
                assert(call_ensures(on_entry, (&q, &m0[q]), false));
            }
        }
    }

    /// Takes all elements out of the set and returns them in order. The
    /// cells of the nodes are vacant afterwards.
    pub fn into_vec<S: Slab<Node<T, ()>>>(self, store: &mut S) -> (elements: Vec<T>)
        requires
            self.wf(old(store)),
        ensures
            final(store).wf(),
            evolves(old(store).cells(), final(store).cells(), self.nodes(), Set::<usize>::empty()),
            elements@.len() == self@.len(),
            forall|i: int| 0 <= i < elements@.len() ==> self@.contains(#[trigger] elements@[i]),
            forall|i: int, j: int|
                0 <= i < j < elements@.len() ==> key_lt(#[trigger] elements@[i], #[trigger] elements@[j]),
            forall|q: T|
                self@.contains(q) ==> exists|i: int| 0 <= i < elements@.len() && #[trigger] elements@[i] == q,
    {
        let ghost m0 = self.map@;
        let entries = self.map.into_vec(store);
        let ghost pairs = entries@;
        let mut entries = entries;
        let mut reversed: Vec<T> = Vec::new();
        while entries.len() > 0
            invariant
                entries@.len() + reversed@.len() == pairs.len(),
                entries@ == pairs.subrange(0, entries@.len() as int),
                forall|j: int|
                    0 <= j < reversed@.len() ==> #[trigger] reversed@[j] == pairs[pairs.len() - 1 - j].0,
            decreases entries.len(),
        {
            let (element, _) = entries.pop().unwrap();
            reversed.push(element);
        }
        let mut elements: Vec<T> = Vec::new();
        while reversed.len() > 0
            invariant
                reversed@.len() + elements@.len() == pairs.len(),
                forall|j: int|
                    0 <= j < reversed@.len() ==> #[trigger] reversed@[j] == pairs[pairs.len() - 1 - j].0,
                forall|j: int| 0 <= j < elements@.len() ==> #[trigger] elements@[j] == pairs[j].0,
            decreases reversed.len(),
        {
            let element = reversed.pop().unwrap();
            elements.push(element);
        }
        proof {
            assert forall|j: int| 0 <= j < elements@.len() implies self@.contains(#[trigger] elements@[j]) by {
                assert(m0.contains_pair(pairs[j].0, pairs[j].1));
            }
            assert forall|a: int, b: int| 0 <= a < b < elements@.len() implies key_lt(
                #[trigger] elements@[a],
                #[trigger] elements@[b],
            ) by {
                assert(key_lt(pairs[a].0, pairs[b].0));
            }
            assert forall|q: T| self@.contains(q) implies exists|j: int|
                0 <= j < elements@.len() && #[trigger] elements@[j] == q by {
                let j = choose|j: int| 0 <= j < pairs.len() && (#[trigger] pairs[j]).0 == q;
                assert(elements@[j] == q);
            }
        }
        elements
    }
}

} // verus!
