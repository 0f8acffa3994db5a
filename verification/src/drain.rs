//! Taking entries out of a map while going through it: the entries that a
//! predicate picks, or all of them.

use vstd::prelude::*;
use crate::addr::Address;
use crate::compare::{lemma_listing_unique, listing, lists, reversed};
use crate::iter::{keys_between, lemma_has_next, lemma_no_next};
use crate::map::BTreeMap;
use crate::node::Node;
use crate::order::{key_lt, lemma_order_laws, total_order};
use crate::slab::{Slab, SlabView};
use crate::tree::{evolves, is_next, is_prev, lemma_next_unique, next_key, Cells};

verus! {

/// The state of a pass through a map that takes out the entries which a
/// predicate picks: the place of the next entry to be looked at, and the
/// number of entries that are still to be looked at.
pub struct DrainFilterInner {
    addr: Address,
    len: usize,
}

impl DrainFilterInner {
    /// The key of the entry that is looked at next, unless the pass has
    /// reached the end of the map.
    pub closed spec fn upcoming<K: Ord, V>(&self, map: &BTreeMap<K, V>, cells: Cells<K, V>) -> Option<K> {
        map.key_from(cells, self.addr)
    }

    /// The keys of the entries that are still to be looked at.
    pub open spec fn pending<K: Ord, V>(&self, map: &BTreeMap<K, V>, cells: Cells<K, V>) -> Set<K> {
        keys_between(map@, self.upcoming(map, cells), None)
    }

    /// The number of entries that the pass takes to be still to come.
    pub closed spec fn count(&self) -> usize {
        self.len
    }

    /// The pass is at a place of `map` and knows how many entries are still
    /// to be looked at.
    pub closed spec fn wf<K: Ord, V, S: SlabView<Node<K, V>>>(&self, map: &BTreeMap<K, V>, store: &S) -> bool {
        &&& map.wf(store)
        &&& map.is_canonical(store.cells(), self.addr)
        &&& self.pending(map, store.cells()).finite()
        &&& self.len == self.pending(map, store.cells()).len()
    }

    /// A pass that is in order counts the entries that are still to come.
    pub proof fn lemma_count<K: Ord, V, S: SlabView<Node<K, V>>>(&self, map: &BTreeMap<K, V>, store: &S)
        requires
            self.wf(map, store),
        ensures
            self.count() == self.pending(map, store.cells()).len(),
    {
    }

    /// A pass that starts at the first entry of `map`.
    pub fn new<K: Ord, V, S: SlabView<Node<K, V>>>(map: &BTreeMap<K, V>, store: &S) -> (pass: Self)
        requires
            map.wf(store),
        ensures
            pass.wf(map, store),
            pass.pending(map, store.cells()) == map@.dom(),
    {
        let addr = map.first_back_address(store);
        let len = map.len();
        let pass = DrainFilterInner { addr, len };
        proof {
            lemma_order_laws::<K>();
            map.lemma_empty(store.cells());
            assert(pass.pending(map, store.cells()) =~= map@.dom());
        }
        pass
    }

    /// The number of entries that may still be taken out, as a lower and an
    /// upper bound.
    pub fn size_hint(&self) -> (hint: (usize, Option<usize>))
        ensures
            hint.0 == 0,
            hint.1 == Some(self.count()),
    {
        (0, Some(self.len))
    }

    /// Looks at the entries from the place of the pass on, in key order, and
    /// takes the first one for which `pred` says `wanted` out of the map.
    /// `None` if there is none.
    #[verifier::loop_isolation(false)]
    #[verifier::rlimit(50)]
    pub(crate) fn next_where<K: Ord, V, S: Slab<Node<K, V>>, F: Fn(&K, &V) -> bool>(
        &mut self,
        map: &mut BTreeMap<K, V>,
        store: &mut S,
        pred: &F,
        wanted: bool,
    ) -> (entry: Option<(K, V)>)
        requires
            old(self).wf(old(map), old(store)),
            forall|k: K, v: V| #[trigger] old(map)@.contains_pair(k, v) ==> call_requires(*pred, (&k, &v)),
        ensures
            final(self).wf(final(map), final(store)),
            evolves(old(store).cells(), final(store).cells(), old(map).nodes(), final(map).nodes()),
            match entry {
                Some((k, v)) => {
                    &&& old(self).pending(old(map), old(store).cells()).contains(k)
                    &&& old(map)@.contains_pair(k, v)
                    &&& call_ensures(*pred, (&k, &v), wanted)
                    &&& final(map)@ == old(map)@.remove(k)
                    &&& final(self).pending(final(map), final(store).cells()) == keys_between(
                        old(map)@,
                        next_key(old(map)@, k),
                        None,
                    )
                    &&& forall|q: K|
                        old(self).pending(old(map), old(store).cells()).contains(q) && key_lt(q, k)
                            ==> call_ensures(*pred, (&q, &old(map)@[q]), !wanted)
                },
                None => {
                    &&& final(map)@ == old(map)@
                    &&& final(self).pending(final(map), final(store).cells()) =~= Set::<K>::empty()
                    &&& forall|q: K|
                        old(self).pending(old(map), old(store).cells()).contains(q) ==> call_ensures(
                            *pred,
                            (&q, &old(map)@[q]),
                            !wanted,
                        )
                },
            },
    {
        let ghost m0 = map@;
        let ghost c0 = store.cells();
        let ghost pending0 = self.pending(map, c0);
        let ghost nodes0 = map.nodes();
        proof {
            lemma_order_laws::<K>();
            map.lemma_nodes_occupied(c0);
            crate::remove::lemma_no_change(c0, map.shape@.nodes, map.root, map.shape@);
        }
        if self.addr.is_nowhere() {
            proof {
                map.lemma_empty(c0);
                assert(pending0 =~= Set::<K>::empty());
            }
            return None;
        }
        loop
            invariant
                self.wf(map, store),
                map@ == m0,
                store.cells() == c0,
                map.nodes() == nodes0,
                map.root().is_some(),
                total_order::<K>(),
                evolves(c0, c0, nodes0, nodes0),
                forall|k: K, v: V| #[trigger] m0.contains_pair(k, v) ==> call_requires(*pred, (&k, &v)),
                self.pending(map, c0).subset_of(pending0),
                forall|q: K|
                    pending0.contains(q) && !self.pending(map, c0).contains(q) ==> call_ensures(
                        *pred,
                        (&q, &m0[q]),
                        !wanted,
                    ),
                forall|q: K, r: K|
                    #![trigger pending0.contains(q), self.pending(map, c0).contains(r)]
                    pending0.contains(q) && !self.pending(map, c0).contains(q) && self.pending(
                        map,
                        c0,
                    ).contains(r) ==> key_lt(q, r),
            decreases self.pending(map, store.cells()).len(),
        {
            let ghost rest = self.pending(map, c0);
            let found = match map.item(store, self.addr) {
                Some(item) => Some(pred(&item.key, &item.value)),
                None => None,
            };
            match found {
                Some(drain) => {
                    let ghost k = map.item_of(c0, self.addr).key;
                    let ghost v = map.item_of(c0, self.addr).value;
                    proof {
                        lemma_order_laws::<K>();
                        assert(rest.contains(k));
                        if next_key(m0, k).is_none() {
                            lemma_no_next(m0, k);
                        } else {
                            lemma_has_next(m0, k);
                        }
                        vstd::set_lib::lemma_set_empty_equivalency_len(rest);
                        assert(keys_between(m0, next_key(m0, k), None) =~= rest.remove(k)) by {
                            assert forall|q: K|
                                keys_between(m0, next_key(m0, k), None).contains(q)
                                    <==> rest.remove(k).contains(q) by {
                                if m0.dom().contains(q) && q != k && !key_lt(q, k) {
                                    assert(key_lt(k, q));
                                }
                            }
                        }
                    }
                    self.len = self.len - 1;
                    if drain == wanted {
                        let (item, next_addr) = map.remove_at(store, self.addr).unwrap();
                        let ghost m1 = map@;
                        proof {
                            map.lemma_empty(store.cells());
                            // the next key of the rest is the next key of before
                            let following = next_key(m0, k);
                            assert(is_next(m1, k, following)) by {
                                match following {
                                    Some(s) => {
                                        assert(m1.dom().contains(s));
                                    },
                                    None => {},
                                }
                            }
                            lemma_next_unique(m1, k, following);
                        }
                        if map.is_empty() {
                            self.addr = Address::nowhere();
                        } else {
                            self.addr = map.shift_to_start(store, next_addr);
                        }
                        proof {
                            let following = next_key(m0, k);
                            assert(self.upcoming(map, store.cells()) == following);
                            assert(self.pending(map, store.cells()) =~= keys_between(
                                m0,
                                following,
                                None,
                            )) by {
                                assert forall|q: K|
                                    self.pending(map, store.cells()).contains(q) <==> keys_between(
                                        m0,
                                        following,
                                        None,
                                    ).contains(q) by {
                                    if following.is_some() && m0.dom().contains(q) && !key_lt(
                                        q,
                                        following.unwrap(),
                                    ) {
                                        assert(q != k);
                                    }
                                }
                            }
                            assert forall|q: K| pending0.contains(q) && key_lt(q, k) implies call_ensures(
                                *pred,
                                (&q, &m0[q]),
                                !wanted,
                            ) by {
                                assert(!rest.contains(q));
                            }
                        }
                        return Some(item.into_pair());
                    } else {
                        self.addr = map.next_item_or_back_address(store, self.addr).unwrap();
                        proof {
                            assert(self.upcoming(map, c0) == next_key(m0, k));
                            assert(self.pending(map, c0) =~= rest.remove(k));
                            assert forall|q: K, r: K|
                                #![trigger pending0.contains(q), self.pending(map, c0).contains(r)]
                                pending0.contains(q) && !self.pending(map, c0).contains(q)
                                    && self.pending(map, c0).contains(r) implies key_lt(q, r) by {
                                if q == k {
                                    assert(key_lt(k, r));
                                } else {
                                    assert(!rest.contains(q));
                                    assert(rest.contains(r));
                                }
                            }
                        }
                    }
                },
                None => {
                    proof {
                        assert(rest =~= Set::<K>::empty());
                        assert forall|q: K| pending0.contains(q) implies call_ensures(
                            *pred,
                            (&q, &m0[q]),
                            !wanted,
                        ) by {
                            assert(!rest.contains(q));
                        }
                    }
                    return None;
                },
            }
        }
    }

    /// Looks at the entries from the place of the pass on, in key order, and
    /// takes the first one that `pred` picks out of the map. `None` if `pred`
    /// picks none of them.
    pub fn next<K: Ord, V, S: Slab<Node<K, V>>, F: Fn(&K, &V) -> bool>(
        &mut self,
        map: &mut BTreeMap<K, V>,
        store: &mut S,
        pred: &F,
    ) -> (entry: Option<(K, V)>)
        requires
            old(self).wf(old(map), old(store)),
            forall|k: K, v: V| #[trigger] old(map)@.contains_pair(k, v) ==> call_requires(*pred, (&k, &v)),
        ensures
            final(self).wf(final(map), final(store)),
            evolves(old(store).cells(), final(store).cells(), old(map).nodes(), final(map).nodes()),
            match entry {
                Some((k, v)) => {
                    &&& old(self).pending(old(map), old(store).cells()).contains(k)
                    &&& old(map)@.contains_pair(k, v)
                    &&& call_ensures(*pred, (&k, &v), true)
                    &&& final(map)@ == old(map)@.remove(k)
                    &&& final(self).pending(final(map), final(store).cells()) == keys_between(
                        old(map)@,
                        next_key(old(map)@, k),
                        None,
                    )
                    &&& forall|q: K|
                        old(self).pending(old(map), old(store).cells()).contains(q) && key_lt(q, k)
                            ==> call_ensures(*pred, (&q, &old(map)@[q]), false)
                },
                None => {
                    &&& final(map)@ == old(map)@
                    &&& final(self).pending(final(map), final(store).cells()) =~= Set::<K>::empty()
                    &&& forall|q: K|
                        old(self).pending(old(map), old(store).cells()).contains(q) ==> call_ensures(
                            *pred,
                            (&q, &old(map)@[q]),
                            false,
                        )
                },
            },
    {
        self.next_where(map, store, pred, true)
    }
}

/// Changes of the cells of a slab through one tree are changes through any
/// greater set of nodes whose other nodes stay as they are.
pub proof fn lemma_evolves_wider<K, V>(
    c0: Cells<K, V>,
    c1: Cells<K, V>,
    n0: Set<usize>,
    n1: Set<usize>,
    others: Set<usize>,
)
    requires
        evolves(c0, c1, n0, n1),
        others.disjoint(n0),
        forall|y: usize| others.contains(y) ==> c0.dom().contains(y),
    ensures
        evolves(c0, c1, n0.union(others), n1.union(others)),
        others.disjoint(n1),
        forall|y: usize| others.contains(y) ==> c1.dom().contains(y) && c1[y] == c0[y],
{
    assert forall|y: usize| others.contains(y) implies c1.dom().contains(y) && c1[y] == c0[y]
        && !n1.contains(y) by {
        assert(c0.dom().contains(y));
        assert(!n0.contains(y));
        if n1.contains(y) {
            assert(n0.contains(y));
        }
    }
}

impl<K: Ord, V> BTreeMap<K, V> {
    /// Takes the entries for which `pred` says `wanted` out of the map and
    /// returns them in key order. The other entries stay.
    #[verifier::loop_isolation(false)]
    #[verifier::rlimit(50)]
    pub(crate) fn drain_where<S: Slab<Node<K, V>>, F: Fn(&K, &V) -> bool>(
        &mut self,
        store: &mut S,
        pred: &F,
        wanted: bool,
    ) -> (drained: Vec<(K, V)>)
        requires
            old(self).wf(old(store)),
            forall|k: K, v: V| #[trigger] old(self)@.contains_pair(k, v) ==> call_requires(*pred, (&k, &v)),
        ensures
            final(self).wf(final(store)),
            evolves(old(store).cells(), final(store).cells(), old(self).nodes(), final(self).nodes()),
            forall|i: int|
                0 <= i < drained@.len() ==> old(self)@.contains_pair(
                    (#[trigger] drained@[i]).0,
                    drained@[i].1,
                ) && call_ensures(*pred, (&drained@[i].0, &drained@[i].1), wanted),
            forall|i: int, j: int|
                0 <= i < j < drained@.len() ==> key_lt((#[trigger] drained@[i]).0, (#[trigger] drained@[j]).0),
            final(self)@.submap_of(old(self)@),
            forall|k: K|
                old(self)@.dom().contains(k) ==> (final(self)@.dom().contains(k) <==> !exists|i: int|
                    0 <= i < drained@.len() && (#[trigger] drained@[i]).0 == k),
            forall|k: K| #[trigger]
                final(self)@.dom().contains(k) ==> call_ensures(*pred, (&k, &final(self)@[k]), !wanted),
    {
        let ghost m0 = self@;
        let ghost c0 = store.cells();
        let ghost nodes0 = self.nodes();
        let mut pass = DrainFilterInner::new(self, store);
        let mut drained: Vec<(K, V)> = Vec::new();
        proof {
            self.lemma_nodes_occupied(c0);
            crate::remove::lemma_no_change(c0, self.shape@.nodes, self.root, self.shape@);
        }
        loop
            invariant
                pass.wf(self, store),
                total_order::<K>(),
                evolves(c0, store.cells(), nodes0, self.nodes()),
                forall|y: usize| nodes0.contains(y) ==> c0.dom().contains(y),
                forall|k: K, v: V| #[trigger] m0.contains_pair(k, v) ==> call_requires(*pred, (&k, &v)),
                self@.submap_of(m0),
                pass.pending(self, store.cells()).subset_of(self@.dom()),
                forall|i: int|
                    0 <= i < drained@.len() ==> m0.contains_pair(
                        (#[trigger] drained@[i]).0,
                        drained@[i].1,
                    ) && call_ensures(*pred, (&drained@[i].0, &drained@[i].1), wanted),
                forall|i: int, j: int|
                    0 <= i < j < drained@.len() ==> key_lt(
                        (#[trigger] drained@[i]).0,
                        (#[trigger] drained@[j]).0,
                    ),
                forall|i: int, q: K|
                    #![trigger drained@[i], pass.pending(self, store.cells()).contains(q)]
                    0 <= i < drained@.len() && pass.pending(self, store.cells()).contains(q)
                        ==> key_lt(drained@[i].0, q),
                forall|k: K|
                    m0.dom().contains(k) ==> (self@.dom().contains(k) <==> !exists|i: int|
                        0 <= i < drained@.len() && (#[trigger] drained@[i]).0 == k),
                forall|k: K|
                    #![trigger self@.dom().contains(k)]
                    self@.dom().contains(k) && !pass.pending(self, store.cells()).contains(k)
                        ==> call_ensures(*pred, (&k, &self@[k]), !wanted),
            decreases self@.dom().len(),
        {
            let ghost m1 = self@;
            let ghost c1 = store.cells();
            let ghost nodes1 = self.nodes();
            let ghost rest = pass.pending(self, c1);
            let ghost before = drained@;
            proof {
                assert forall|k: K, v: V| #[trigger] m1.contains_pair(k, v) implies call_requires(
                    *pred,
                    (&k, &v),
                ) by {
                    assert(m1.dom().contains(k));
                    assert(m0.dom().contains(k) && m0[k] == m1[k]);
                }
                self.lemma_nodes_occupied(c1);
            }
            match pass.next_where(self, store, pred, wanted) {
                Some(entry) => {
                    let ghost k = entry.0;
                    drained.push(entry);
                    proof {
                        lemma_order_laws::<K>();
                        crate::insert::lemma_evolves_trans(
                            c0,
                            c1,
                            store.cells(),
                            nodes0,
                            nodes1,
                            self.nodes(),
                        );
                        let after = drained@;
                        let now = pass.pending(self, store.cells());
                        assert(now.subset_of(rest.remove(k))) by {
                            if next_key(m1, k).is_none() {
                                lemma_no_next(m1, k);
                            } else {
                                lemma_has_next(m1, k);
                            }
                        }
                        assert forall|i: int| 0 <= i < after.len() implies m0.contains_pair(
                            (#[trigger] after[i]).0,
                            after[i].1,
                        ) && call_ensures(*pred, (&after[i].0, &after[i].1), wanted) by {
                            if i < before.len() {
                                assert(after[i] == before[i]);
                            }
                        }
                        assert forall|i: int, q: K|
                            #![trigger after[i], now.contains(q)]
                            0 <= i < after.len() && now.contains(q) implies key_lt(after[i].0, q) by {
                            assert(rest.contains(q));
                            if i < before.len() {
                                assert(after[i] == before[i]);
                            } else {
                                assert(q != k);
                                if next_key(m1, k).is_some() {
                                    lemma_has_next(m1, k);
                                }
                            }
                        }
                        assert forall|i: int, j: int| 0 <= i < j < after.len() implies key_lt(
                            (#[trigger] after[i]).0,
                            (#[trigger] after[j]).0,
                        ) by {
                            assert(after[i] == before[i]);
                            if j < before.len() {
                                assert(after[j] == before[j]);
                            }
                        }
                        assert forall|q: K| m0.dom().contains(q) implies (self@.dom().contains(q) <==> !exists|
                            i: int,
                        | 0 <= i < after.len() && (#[trigger] after[i]).0 == q) by {
                            if q == k {
                                assert(after[before.len() as int].0 == q);
                            } else {
                                if exists|i: int| 0 <= i < after.len() && (#[trigger] after[i]).0 == q {
                                    let i = choose|i: int| 0 <= i < after.len() && (#[trigger] after[i]).0 == q;
                                    assert(i < before.len());
                                    assert(before[i].0 == q);
                                }
                                if exists|i: int| 0 <= i < before.len() && (#[trigger] before[i]).0 == q {
                                    let i = choose|i: int| 0 <= i < before.len() && (#[trigger] before[i]).0 == q;
                                    assert(after[i] == before[i]);
                                }
                            }
                        }
                        assert forall|q: K|
                            #![trigger self@.dom().contains(q)]
                            self@.dom().contains(q) && !now.contains(q) implies call_ensures(
                            *pred,
                            (&q, &self@[q]),
                            !wanted,
                        ) by {
                            assert(m1.dom().contains(q));
                            assert(self@[q] == m1[q]);
                            if rest.contains(q) {
                                // between the front of before and the entry that was taken
                                if !key_lt(q, k) {
                                    assert(key_lt(k, q));
                                    if next_key(m1, k).is_none() {
                                        lemma_no_next(m1, k);
                                    } else {
                                        lemma_has_next(m1, k);
                                    }
                                    assert(false);
                                }
                            }
                        }
                        vstd::set_lib::lemma_set_empty_equivalency_len(m1.dom());
                    }
                },
                None => {
                    proof {
                        crate::insert::lemma_evolves_trans(
                            c0,
                            c1,
                            store.cells(),
                            nodes0,
                            nodes1,
                            self.nodes(),
                        );
                        assert forall|q: K| #[trigger] self@.dom().contains(q) implies call_ensures(
                            *pred,
                            (&q, &self@[q]),
                            !wanted,
                        ) by {
                            if !rest.contains(q) {
                            }
                        }
                    }
                    return drained;
                },
            }
        }
    }

    /// Takes the entries that `pred` picks out of the map and returns them in
    /// key order. The other entries stay.
    pub fn drain_filter<S: Slab<Node<K, V>>, F: Fn(&K, &V) -> bool>(
        &mut self,
        store: &mut S,
        pred: F,
    ) -> (drained: Vec<(K, V)>)
        requires
            old(self).wf(old(store)),
            forall|k: K, v: V| #[trigger] old(self)@.contains_pair(k, v) ==> call_requires(pred, (&k, &v)),
        ensures
            final(self).wf(final(store)),
            evolves(old(store).cells(), final(store).cells(), old(self).nodes(), final(self).nodes()),
            forall|i: int|
                0 <= i < drained@.len() ==> old(self)@.contains_pair(
                    (#[trigger] drained@[i]).0,
                    drained@[i].1,
                ) && call_ensures(pred, (&drained@[i].0, &drained@[i].1), true),
            forall|i: int, j: int|
                0 <= i < j < drained@.len() ==> key_lt((#[trigger] drained@[i]).0, (#[trigger] drained@[j]).0),
            final(self)@.submap_of(old(self)@),
            forall|k: K|
                old(self)@.dom().contains(k) ==> (final(self)@.dom().contains(k) <==> !exists|i: int|
                    0 <= i < drained@.len() && (#[trigger] drained@[i]).0 == k),
            forall|k: K| #[trigger]
                final(self)@.dom().contains(k) ==> call_ensures(pred, (&k, &final(self)@[k]), false),
    {
        self.drain_where(store, &pred, true)
    }

    /// Keeps the entries that `keep` picks and drops the others.
    pub fn retain<S: Slab<Node<K, V>>, F: Fn(&K, &V) -> bool>(&mut self, store: &mut S, keep: F)
        requires
            old(self).wf(old(store)),
            forall|k: K, v: V| #[trigger] old(self)@.contains_pair(k, v) ==> call_requires(keep, (&k, &v)),
        ensures
            final(self).wf(final(store)),
            evolves(old(store).cells(), final(store).cells(), old(self).nodes(), final(self).nodes()),
            final(self)@.submap_of(old(self)@),
            forall|k: K| #[trigger]
                final(self)@.dom().contains(k) ==> call_ensures(keep, (&k, &final(self)@[k]), true),
            forall|k: K|
                #![trigger old(self)@.dom().contains(k)]
                old(self)@.dom().contains(k) && !final(self)@.dom().contains(k) ==> call_ensures(
                    keep,
                    (&k, &old(self)@[k]),
                    false,
                ),
    {
        let ghost m0 = self@;
        let dropped = self.drain_where(store, &keep, false);
        proof {
            assert forall|k: K|
                #![trigger m0.dom().contains(k)]
                m0.dom().contains(k) && !self@.dom().contains(k) implies call_ensures(
                keep,
                (&k, &m0[k]),
                false,
            ) by {
                let i = choose|i: int| 0 <= i < dropped@.len() && (#[trigger] dropped@[i]).0 == k;
                assert(m0.contains_pair(dropped@[i].0, dropped@[i].1));
            }
        }
    }

    /// Takes all entries out of the map and returns their keys in order. The
    /// cells of the nodes are vacant afterwards.
    pub fn into_keys<S: Slab<Node<K, V>>>(self, store: &mut S) -> (keys: Vec<K>)
        requires
            self.wf(old(store)),
        ensures
            final(store).wf(),
            evolves(old(store).cells(), final(store).cells(), self.nodes(), Set::<usize>::empty()),
            keys@ == listing(self@).map_values(|e: (K, V)| e.0),
            lists(self@, listing(self@)),
    {
        let entries = self.into_vec(store);
        let ghost all = entries@;
        proof {
            assert(lists(self@, all));
            lemma_listing_unique(self@, all, all);
        }
        let mut rest = reversed(entries);
        let mut keys: Vec<K> = Vec::new();
        while rest.len() > 0
            invariant
                rest@.len() + keys@.len() == all.len(),
                forall|i: int| 0 <= i < rest@.len() ==> #[trigger] rest@[i] == all[all.len() - 1 - i],
                forall|i: int| 0 <= i < keys@.len() ==> #[trigger] keys@[i] == all[i].0,
            decreases rest.len(),
        {
            let (key, _) = rest.pop().unwrap();
            keys.push(key);
        }
        proof {
            assert(keys@ =~= all.map_values(|e: (K, V)| e.0));
        }
        keys
    }

    /// Takes all entries out of the map and returns their values in the
    /// order of the keys. The cells of the nodes are vacant afterwards.
    pub fn into_values<S: Slab<Node<K, V>>>(self, store: &mut S) -> (values: Vec<V>)
        requires
            self.wf(old(store)),
        ensures
            final(store).wf(),
            evolves(old(store).cells(), final(store).cells(), self.nodes(), Set::<usize>::empty()),
            values@ == listing(self@).map_values(|e: (K, V)| e.1),
            lists(self@, listing(self@)),
    {
        let entries = self.into_vec(store);
        let ghost all = entries@;
        proof {
            assert(lists(self@, all));
            lemma_listing_unique(self@, all, all);
        }
        let mut rest = reversed(entries);
        let mut values: Vec<V> = Vec::new();
        while rest.len() > 0
            invariant
                rest@.len() + values@.len() == all.len(),
                forall|i: int| 0 <= i < rest@.len() ==> #[trigger] rest@[i] == all[all.len() - 1 - i],
                forall|i: int| 0 <= i < values@.len() ==> #[trigger] values@[i] == all[i].1,
            decreases rest.len(),
        {
            let (_, value) = rest.pop().unwrap();
            values.push(value);
        }
        proof {
            assert(values@ =~= all.map_values(|e: (K, V)| e.1));
        }
        values
    }

    /// Takes all entries out of the map and returns them in key order. The
    /// cells of the nodes are vacant afterwards.
    #[verifier::loop_isolation(false)]
    #[verifier::rlimit(50)]
    pub fn into_vec<S: Slab<Node<K, V>>>(self, store: &mut S) -> (entries: Vec<(K, V)>)
        requires
            self.wf(old(store)),
        ensures
            final(store).wf(),
            evolves(old(store).cells(), final(store).cells(), self.nodes(), Set::<usize>::empty()),
            entries@.len() == self@.dom().len(),
            forall|i: int|
                0 <= i < entries@.len() ==> self@.contains_pair((#[trigger] entries@[i]).0, entries@[i].1),
            forall|i: int, j: int|
                0 <= i < j < entries@.len() ==> key_lt((#[trigger] entries@[i]).0, (#[trigger] entries@[j]).0),
            forall|k: K|
                self@.dom().contains(k) ==> exists|i: int|
                    0 <= i < entries@.len() && (#[trigger] entries@[i]).0 == k,
    {
        let ghost m0 = self@;
        let ghost c0 = store.cells();
        let ghost nodes0 = self.nodes();
        let mut map = self;
        let mut entries: Vec<(K, V)> = Vec::new();
        proof {
            map.lemma_nodes_occupied(c0);
            crate::remove::lemma_no_change(c0, map.shape@.nodes, map.root, map.shape@);
        }
        loop
            invariant
                map.wf(store),
                total_order::<K>(),
                evolves(c0, store.cells(), nodes0, map.nodes()),
                forall|y: usize| nodes0.contains(y) ==> c0.dom().contains(y),
                map@.submap_of(m0),
                entries@.len() + map@.dom().len() == m0.dom().len(),
                forall|i: int|
                    0 <= i < entries@.len() ==> m0.contains_pair(
                        (#[trigger] entries@[i]).0,
                        entries@[i].1,
                    ) && !map@.dom().contains(entries@[i].0),
                forall|i: int, j: int|
                    0 <= i < j < entries@.len() ==> key_lt(
                        (#[trigger] entries@[i]).0,
                        (#[trigger] entries@[j]).0,
                    ),
                forall|i: int, q: K|
                    #![trigger entries@[i], map@.dom().contains(q)]
                    0 <= i < entries@.len() && map@.dom().contains(q) ==> key_lt(entries@[i].0, q),
                forall|k: K|
                    m0.dom().contains(k) && !map@.dom().contains(k) ==> exists|i: int|
                        0 <= i < entries@.len() && (#[trigger] entries@[i]).0 == k,
            decreases map@.dom().len(),
        {
            let ghost m1 = map@;
            let ghost c1 = store.cells();
            let ghost nodes1 = map.nodes();
            let ghost before = entries@;
            proof {
                map.lemma_nodes_occupied(c1);
            }
            match map.pop_first(store) {
                Some(entry) => {
                    let ghost k = entry.0;
                    entries.push(entry);
                    proof {
                        lemma_order_laws::<K>();
                        crate::insert::lemma_evolves_trans(
                            c0,
                            c1,
                            store.cells(),
                            nodes0,
                            nodes1,
                            map.nodes(),
                        );
                        let after = entries@;
                        assert forall|i: int| 0 <= i < after.len() implies m0.contains_pair(
                            (#[trigger] after[i]).0,
                            after[i].1,
                        ) && !map@.dom().contains(after[i].0) by {
                            if i < before.len() {
                                assert(after[i] == before[i]);
                            }
                        }
                        assert forall|i: int, q: K|
                            #![trigger after[i], map@.dom().contains(q)]
                            0 <= i < after.len() && map@.dom().contains(q) implies key_lt(after[i].0, q) by {
                            assert(m1.dom().contains(q));
                            if i < before.len() {
                                assert(after[i] == before[i]);
                            } else {
                                assert(!key_lt(q, k));
                            }
                        }
                        assert forall|i: int, j: int| 0 <= i < j < after.len() implies key_lt(
                            (#[trigger] after[i]).0,
                            (#[trigger] after[j]).0,
                        ) by {
                            assert(after[i] == before[i]);
                            if j < before.len() {
                                assert(after[j] == before[j]);
                            } else {
                                assert(m1.dom().contains(k));
                            }
                        }
                        assert forall|q: K| m0.dom().contains(q) && !map@.dom().contains(q) implies exists|
                            i: int,
                        | 0 <= i < after.len() && (#[trigger] after[i]).0 == q by {
                            if q == k {
                                assert(after[before.len() as int].0 == q);
                            } else {
                                assert(!m1.dom().contains(q));
                                let i = choose|i: int| 0 <= i < before.len() && (#[trigger] before[i]).0 == q;
                                assert(after[i] == before[i]);
                            }
                        }
                        vstd::set_lib::lemma_set_empty_equivalency_len(m1.dom());
                    }
                },
                None => {
                    proof {
                        crate::insert::lemma_evolves_trans(
                            c0,
                            c1,
                            store.cells(),
                            nodes0,
                            nodes1,
                            map.nodes(),
                        );
                        map.lemma_empty(store.cells());
                        vstd::set_lib::lemma_set_empty_equivalency_len(m1.dom());
                        assert forall|q: K| m0.dom().contains(q) implies exists|i: int|
                            0 <= i < entries@.len() && (#[trigger] entries@[i]).0 == q by {
                            assert(!map@.dom().contains(q));
                        }
                    }
                    return entries;
                },
            }
        }
    }

    /// Takes all entries out of the map. The cells of its nodes are vacant
    /// afterwards, unless the slab could be emptied at once.
    #[verifier::loop_isolation(false)]
    pub fn clear<S: Slab<Node<K, V>>>(&mut self, store: &mut S)
        requires
            old(self).wf(old(store)),
        ensures
            final(self).wf(final(store)),
            final(self)@ == Map::<K, V>::empty(),
            final(self).nodes() == Set::<usize>::empty(),
            evolves(old(store).cells(), final(store).cells(), old(self).nodes(), final(self).nodes())
                || final(store).cells() == Map::<usize, Node<K, V>>::empty(),
    {
        let ghost c0 = store.cells();
        let ghost nodes0 = self.nodes();
        proof {
            self.lemma_nodes_occupied(c0);
            crate::remove::lemma_no_change(c0, self.shape@.nodes, self.root, self.shape@);
        }
        if store.clear_fast() {
            let fresh = BTreeMap::new();
            *self = fresh;
            return;
        }
        loop
            invariant
                self.wf(store),
                total_order::<K>(),
                evolves(c0, store.cells(), nodes0, self.nodes()),
                forall|y: usize| nodes0.contains(y) ==> c0.dom().contains(y),
            decreases self@.dom().len(),
        {
            let ghost c1 = store.cells();
            let ghost nodes1 = self.nodes();
            let ghost m1 = self@;
            proof {
                self.lemma_nodes_occupied(c1);
            }
            match self.pop_first(store) {
                Some(_) => {
                    proof {
                        crate::insert::lemma_evolves_trans(
                            c0,
                            c1,
                            store.cells(),
                            nodes0,
                            nodes1,
                            self.nodes(),
                        );
                        vstd::set_lib::lemma_set_empty_equivalency_len(m1.dom());
                    }
                },
                None => {
                    proof {
                        crate::insert::lemma_evolves_trans(
                            c0,
                            c1,
                            store.cells(),
                            nodes0,
                            nodes1,
                            self.nodes(),
                        );
                        self.lemma_empty(store.cells());
                    }
                    return;
                },
            }
        }
    }

    /// Moves all entries of `other`, a map in the same slab, into this map,
    /// as `append` does, if the two maps together hold fewer entries than a
    /// machine number can count. Else it leaves both maps as they are and
    /// returns `false`. No cell of another map in the slab changes either
    /// way.
    pub fn try_append<S: Slab<Node<K, V>>>(&mut self, store: &mut S, other: &mut Self) -> (done: bool)
        requires
            old(self).wf(old(store)),
            old(other).wf(old(store)),
            old(self).nodes().disjoint(old(other).nodes()),
        ensures
            final(self).wf(final(store)),
            final(other).wf(final(store)),
            final(self).nodes().disjoint(final(other).nodes()),
            done <==> old(self)@.dom().len() + old(other)@.dom().len() < usize::MAX,
            done ==> final(self)@ == old(self)@.union_prefer_right(old(other)@) && final(other)@
                == Map::<K, V>::empty() && final(other).nodes() == Set::<usize>::empty(),
            !done ==> final(self)@ == old(self)@ && final(other)@ == old(other)@ && final(store).cells()
                == old(store).cells() && final(self).nodes() == old(self).nodes() && final(other).nodes()
                == old(other).nodes(),
            evolves(
                old(store).cells(),
                final(store).cells(),
                old(self).nodes().union(old(other).nodes()),
                final(self).nodes().union(final(other).nodes()),
            ),
    {
        let fits = match self.len().checked_add(other.len()) {
            Some(sum) => sum < usize::MAX,
            None => false,
        };
        if fits {
            self.append(store, other);
            proof {
                assert(self.nodes().union(other.nodes()) =~= self.nodes());
            }
            true
        } else {
            proof {
                self.lemma_nodes_occupied(store.cells());
                other.lemma_nodes_occupied(store.cells());
            }
            false
        }
    }

    /// Moves all entries of `other`, a map in the same slab, into this map.
    /// Where both maps have a key, the value of `other` is bound to it
    /// afterwards. `other` is empty afterwards.
    #[verifier::loop_isolation(false)]
    #[verifier::rlimit(50)]
    pub fn append<S: Slab<Node<K, V>>>(&mut self, store: &mut S, other: &mut Self)
        requires
            old(self).wf(old(store)),
            old(other).wf(old(store)),
            old(self).nodes().disjoint(old(other).nodes()),
            old(self)@.dom().len() + old(other)@.dom().len() < usize::MAX,
        ensures
            final(self).wf(final(store)),
            final(other).wf(final(store)),
            final(self).nodes().disjoint(final(other).nodes()),
            final(self)@ == old(self)@.union_prefer_right(old(other)@),
            final(other)@ == Map::<K, V>::empty(),
            final(other).nodes() == Set::<usize>::empty(),
            evolves(
                old(store).cells(),
                final(store).cells(),
                old(self).nodes().union(old(other).nodes()),
                final(self).nodes(),
            ),
    {
        let ghost total = self@.union_prefer_right(other@);
        let ghost c0 = store.cells();
        let ghost nodes0 = self.nodes().union(other.nodes());
        proof {
            self.lemma_nodes_occupied(c0);
            other.lemma_nodes_occupied(c0);
        }
        loop
            invariant
                self.wf(store),
                other.wf(store),
                total_order::<K>(),
                self.nodes().disjoint(other.nodes()),
                self@.union_prefer_right(other@) == total,
                self@.dom().len() + other@.dom().len() < usize::MAX,
                evolves(c0, store.cells(), nodes0, self.nodes().union(other.nodes())),
                forall|y: usize| nodes0.contains(y) ==> c0.dom().contains(y),
            decreases other@.dom().len(),
        {
            let ghost c1 = store.cells();
            let ghost s1 = self.nodes();
            let ghost o1 = other.nodes();
            let ghost sm = self@;
            let ghost om = other@;
            proof {
                self.lemma_nodes_occupied(c1);
                other.lemma_nodes_occupied(c1);
            }
            match other.pop_first(store) {
                Some((key, value)) => {
                    let ghost c2 = store.cells();
                    let ghost o2 = other.nodes();
                    proof {
                        self.lemma_frame(c1, c2, o1, o2);
                        lemma_evolves_wider(c1, c2, o1, o2, s1);
                        self.lemma_nodes_occupied(c2);
                        other.lemma_nodes_occupied(c2);
                        vstd::set_lib::lemma_set_empty_equivalency_len(om.dom());
                        assert(o1.union(s1) =~= s1.union(o1));
                        assert(o2.union(s1) =~= s1.union(o2));
                    }
                    self.insert(store, key, value);
                    proof {
                        let c3 = store.cells();
                        let s3 = self.nodes();
                        other.lemma_frame(c2, c3, s1, s3);
                        lemma_evolves_wider(c2, c3, s1, s3, o2);
                        crate::insert::lemma_evolves_trans(
                            c1,
                            c2,
                            c3,
                            s1.union(o1),
                            s1.union(o2),
                            s3.union(o2),
                        );
                        crate::insert::lemma_evolves_trans(
                            c0,
                            c1,
                            c3,
                            nodes0,
                            s1.union(o1),
                            s3.union(o2),
                        );
                        assert(self@.union_prefer_right(other@) =~= total);
                        assert(s3.disjoint(o2));
                        // the number of entries does not grow
                        if sm.dom().contains(key) {
                            assert(self@.dom() =~= sm.dom());
                        }
                    }
                },
                None => {
                    proof {
                        self.lemma_frame(c1, store.cells(), o1, other.nodes());
                        lemma_evolves_wider(c1, store.cells(), o1, other.nodes(), s1);
                        assert(o1.union(s1) =~= s1.union(o1));
                        assert(other.nodes().union(s1) =~= s1.union(other.nodes()));
                        crate::insert::lemma_evolves_trans(
                            c0,
                            c1,
                            store.cells(),
                            nodes0,
                            s1.union(o1),
                            self.nodes().union(other.nodes()),
                        );
                        other.lemma_empty(store.cells());
                        assert(self@.union_prefer_right(other@) =~= self@);
                        assert(self.nodes().union(other.nodes()) =~= self.nodes());
                    }
                    return;
                },
            }
        }
    }
}

/// Takes the entries out of a map one by one, from the front and from the
/// back. The iterator owns the map; the slab is handed to each step.
#[verifier::reject_recursive_types(K)]
pub struct IntoIter<K, V> {
    map: BTreeMap<K, V>,
}

impl<K: Ord, V> IntoIter<K, V> {
    /// The entries that are still in the map.
    pub closed spec fn view(&self) -> Map<K, V> {
        self.map@
    }

    /// The map of the iterator is well formed in `store`.
    pub closed spec fn wf<S: SlabView<Node<K, V>>>(&self, store: &S) -> bool {
        self.map.wf(store)
    }

    /// The cells of the slab that are nodes of the map.
    pub closed spec fn nodes(&self) -> Set<usize> {
        self.map.nodes()
    }

    /// An iterator that takes the entries out of `map`.
    pub fn new(map: BTreeMap<K, V>) -> (iter: Self)
        ensures
            iter@ == map@,
            iter.nodes() == map.nodes(),
            forall|cells: Cells<K, V>| map.inv(cells) && map.counted() ==> iter.map_inv(cells),
    {
        IntoIter { map }
    }

    /// The nodes of the map form a B-tree in `cells` whose items are the
    /// entries of the map.
    pub closed spec fn map_inv(&self, cells: Cells<K, V>) -> bool {
        self.map.inv(cells) && self.map.counted()
    }

    /// The number of entries that are still in the map.
    pub fn len(&self) -> (len: usize)
        ensures
            forall|cells: Cells<K, V>| #[trigger] self.map_inv(cells) ==> len == self@.dom().len(),
    {
        self.map.len()
    }

    /// A map that holds no entry has no node, and only such a map: once
    /// the last entry is taken out, every node is released.
    pub proof fn lemma_released(&self, cells: Cells<K, V>)
        requires
            total_order::<K>(),
            self.map_inv(cells),
        ensures
            self@.dom().len() == 0 <==> self.nodes() == Set::<usize>::empty(),
            self@ == Map::<K, V>::empty() <==> self.nodes() == Set::<usize>::empty(),
    {
        self.map.lemma_empty(cells);
    }

    /// Takes the entry with the least key out of the map.
    pub fn next<S: Slab<Node<K, V>>>(&mut self, store: &mut S) -> (entry: Option<(K, V)>)
        requires
            total_order::<K>(),
            old(store).wf(),
            old(self).map_inv(old(store).cells()),
        ensures
            final(store).wf(),
            final(self).map_inv(final(store).cells()),
            entry.is_none() <==> old(self)@.dom().len() == 0,
            entry.is_none() ==> final(self)@ == old(self)@,
            final(self)@.dom().len() == 0 <==> final(self).nodes() == Set::<usize>::empty(),
            entry.is_some() ==> {
                &&& old(self)@.contains_pair(entry.unwrap().0, entry.unwrap().1)
                &&& is_prev(old(self)@, entry.unwrap().0, None)
                &&& final(self)@ == old(self)@.remove(entry.unwrap().0)
            },
            evolves(old(store).cells(), final(store).cells(), old(self).nodes(), final(self).nodes()),
    {
        let entry = self.map.pop_first(store);
        proof {
            self.map.lemma_empty(store.cells());
        }
        entry
    }

    /// Takes the entry with the greatest key out of the map.
    pub fn next_back<S: Slab<Node<K, V>>>(&mut self, store: &mut S) -> (entry: Option<(K, V)>)
        requires
            total_order::<K>(),
            old(store).wf(),
            old(self).map_inv(old(store).cells()),
        ensures
            final(store).wf(),
            final(self).map_inv(final(store).cells()),
            entry.is_none() <==> old(self)@.dom().len() == 0,
            entry.is_none() ==> final(self)@ == old(self)@,
            final(self)@.dom().len() == 0 <==> final(self).nodes() == Set::<usize>::empty(),
            entry.is_some() ==> {
                &&& old(self)@.contains_pair(entry.unwrap().0, entry.unwrap().1)
                &&& is_next(old(self)@, entry.unwrap().0, None)
                &&& final(self)@ == old(self)@.remove(entry.unwrap().0)
            },
            evolves(old(store).cells(), final(store).cells(), old(self).nodes(), final(self).nodes()),
    {
        let entry = self.map.pop_last(store);
        proof {
            self.map.lemma_empty(store.cells());
        }
        entry
    }
}

impl<K: Ord, V> BTreeMap<K, V> {
    /// An iterator that takes the entries out of the map, in key order from
    /// the front or against it from the back.
    pub fn into_iter(self) -> (iter: IntoIter<K, V>)
        ensures
            iter@ == self@,
            iter.nodes() == self.nodes(),
            forall|cells: Cells<K, V>| self.inv(cells) && self.counted() ==> iter.map_inv(cells),
    {
        IntoIter::new(self)
    }
}

} // verus!
