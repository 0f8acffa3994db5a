//! Comparing two maps, and filling a map from a list of entries.

use vstd::prelude::*;
use crate::map::BTreeMap;
use crate::node::Node;
use crate::order::{compare, key_lt, lemma_order_laws, total_order, Relation};
use crate::slab::{Slab, SlabView};
use crate::tree::evolves;

verus! {

/// The map `map` after the entries of `entries` were bound in it one after
/// the other.
pub open spec fn extended<K, V>(map: Map<K, V>, entries: Seq<(K, V)>) -> Map<K, V>
    decreases entries.len(),
{
    if entries.len() == 0 {
        map
    } else {
        extended(map, entries.drop_last()).insert(entries.last().0, entries.last().1)
    }
}

/// `list` holds the entries of `map`, each once, in the order of their keys.
pub open spec fn lists<K: Ord, V>(map: Map<K, V>, list: Seq<(K, V)>) -> bool {
    &&& forall|i: int| 0 <= i < list.len() ==> map.contains_pair((#[trigger] list[i]).0, list[i].1)
    &&& forall|i: int, j: int|
        0 <= i < j < list.len() ==> key_lt((#[trigger] list[i]).0, (#[trigger] list[j]).0)
    &&& forall|k: K|
        map.dom().contains(k) ==> exists|i: int| 0 <= i < list.len() && (#[trigger] list[i]).0 == k
}

/// The entries of `map` in the order of their keys.
pub open spec fn listing<K: Ord, V>(map: Map<K, V>) -> Seq<(K, V)> {
    choose|list: Seq<(K, V)>| lists(map, list)
}

/// How the lists `a` and `b` compare from the position `at` on, entry by
/// entry, keys before values: the first entry in which they differ decides,
/// and a list that ends where the other goes on is the lesser one.
pub open spec fn lexicographic<K: Ord, V: Ord>(a: Seq<(K, V)>, b: Seq<(K, V)>, at: int) -> Relation
    decreases a.len() - at,
{
    if at < 0 {
        Relation::Equal
    } else if at >= a.len() && at >= b.len() {
        Relation::Equal
    } else if at >= a.len() {
        Relation::Less
    } else if at >= b.len() {
        Relation::Greater
    } else if key_lt(a[at].0, b[at].0) {
        Relation::Less
    } else if key_lt(b[at].0, a[at].0) {
        Relation::Greater
    } else if key_lt(a[at].1, b[at].1) {
        Relation::Less
    } else if key_lt(b[at].1, a[at].1) {
        Relation::Greater
    } else {
        lexicographic(a, b, at + 1)
    }
}

/// A map has one list of its entries in key order, no more.
pub proof fn lemma_listing_unique<K: Ord, V>(map: Map<K, V>, a: Seq<(K, V)>, b: Seq<(K, V)>)
    requires
        total_order::<K>(),
        lists(map, a),
        lists(map, b),
    ensures
        a == b,
        listing(map) == a,
{
    lemma_order_laws::<K>();
    lemma_listing_prefix(map, a, b, a.len() as int);
    lemma_listing_prefix(map, b, a, b.len() as int);
    assert(a =~= b);
    let c = listing(map);
    assert(lists(map, c));
    lemma_listing_prefix(map, a, c, a.len() as int);
    lemma_listing_prefix(map, c, a, c.len() as int);
    assert(c =~= a);
}

/// Two lists of the entries of one map agree on the first `n` entries of
/// the first, which the second has too.
proof fn lemma_listing_prefix<K: Ord, V>(map: Map<K, V>, a: Seq<(K, V)>, b: Seq<(K, V)>, n: int)
    requires
        total_order::<K>(),
        lists(map, a),
        lists(map, b),
        0 <= n <= a.len(),
    ensures
        n <= b.len(),
        forall|i: int| 0 <= i < n ==> a[i] == b[i],
    decreases n,
{
    lemma_order_laws::<K>();
    if n > 0 {
        lemma_listing_prefix(map, a, b, n - 1);
        let k = a[n - 1].0;
        assert(map.contains_pair(a[n - 1].0, a[n - 1].1));
        let p = choose|p: int| 0 <= p < b.len() && (#[trigger] b[p]).0 == k;
        if p < n - 1 {
            assert(a[p] == b[p]);
            assert(key_lt(a[p].0, a[n - 1].0));
        }
        // the entry of `b` at this place is in `a` too, and not before it
        let l = b[n - 1].0;
        assert(map.contains_pair(b[n - 1].0, b[n - 1].1));
        let q = choose|q: int| 0 <= q < a.len() && (#[trigger] a[q]).0 == l;
        if q < n - 1 {
            assert(a[q] == b[q]);
            assert(key_lt(b[q].0, b[n - 1].0));
        }
        if p > n - 1 {
            assert(key_lt(b[n - 1].0, b[p].0));
            if q > n - 1 {
                assert(key_lt(a[n - 1].0, a[q].0));
            }
        }
        assert(k == l);
        assert(map.contains_pair(k, a[n - 1].1));
        assert(map.contains_pair(k, b[n - 1].1));
    }
}

/// The items of `list` in the opposite order.
pub fn reversed<T>(list: Vec<T>) -> (r: Vec<T>)
    ensures
        r@.len() == list@.len(),
        forall|i: int| 0 <= i < r@.len() ==> #[trigger] r@[i] == list@[list@.len() - 1 - i],
{
    let ghost all = list@;
    let mut list = list;
    let mut r: Vec<T> = Vec::new();
    while list.len() > 0
        invariant
            list@.len() + r@.len() == all.len(),
            list@ == all.subrange(0, list@.len() as int),
            forall|i: int| 0 <= i < r@.len() ==> #[trigger] r@[i] == all[all.len() - 1 - i],
        decreases list.len(),
    {
        let item = list.pop().unwrap();
        r.push(item);
    }
    r
}

impl<K: Ord, V> BTreeMap<K, V> {
    /// Binds the entries of `entries` in the map, one after the other.
    #[verifier::loop_isolation(false)]
    pub fn extend<S: Slab<Node<K, V>>>(&mut self, store: &mut S, entries: Vec<(K, V)>)
        requires
            old(self).wf(old(store)),
            old(self)@.dom().len() + entries@.len() < usize::MAX,
        ensures
            final(self).wf(final(store)),
            final(self)@ == extended(old(self)@, entries@),
            evolves(old(store).cells(), final(store).cells(), old(self).nodes(), final(self).nodes()),
    {
        let ghost m0 = self@;
        let ghost c0 = store.cells();
        let ghost n0 = self.nodes();
        let ghost all = entries@;
        let mut rest = reversed(entries);
        proof {
            self.lemma_nodes_occupied(c0);
            crate::remove::lemma_no_change(c0, self.shape@.nodes, self.root, self.shape@);
            assert(all.subrange(0, 0) =~= Seq::<(K, V)>::empty());
        }
        let ghost mut done: int = 0;
        while rest.len() > 0
            invariant
                self.wf(store),
                0 <= done <= all.len(),
                rest@.len() + done == all.len(),
                forall|i: int| 0 <= i < rest@.len() ==> #[trigger] rest@[i] == all[all.len() - 1 - i],
                self@ == extended(m0, all.subrange(0, done)),
                self@.dom().len() <= m0.dom().len() + done,
                evolves(c0, store.cells(), n0, self.nodes()),
            decreases rest.len(),
        {
            let ghost c1 = store.cells();
            let ghost n1 = self.nodes();
            let ghost m1 = self@;
            proof {
                self.lemma_nodes_occupied(c1);
            }
            let (key, value) = rest.pop().unwrap();
            self.insert(store, key, value);
            proof {
                crate::insert::lemma_evolves_trans(c0, c1, store.cells(), n0, n1, self.nodes());
                let next = all.subrange(0, done + 1);
                assert(next.drop_last() =~= all.subrange(0, done));
                assert(next.last() == all[done]);
                if m1.dom().contains(key) {
                    assert(self@.dom() =~= m1.dom());
                }
                done = done + 1;
            }
        }
        proof {
            assert(all.subrange(0, done) =~= all);
        }
    }

    /// A map in `store` that holds the entries of `entries`, bound one after
    /// the other.
    pub fn from_vec<S: Slab<Node<K, V>>>(store: &mut S, entries: Vec<(K, V)>) -> (map: Self)
        requires
            total_order::<K>(),
            old(store).wf(),
            entries@.len() < usize::MAX,
        ensures
            map.wf(final(store)),
            map@ == extended(Map::<K, V>::empty(), entries@),
            evolves(old(store).cells(), final(store).cells(), Set::<usize>::empty(), map.nodes()),
    {
        let mut map = BTreeMap::new_in(&*store);
        map.extend(store, entries);
        map
    }
}

impl<K: Ord, V> BTreeMap<K, V> {
    /// Goes through the entries of the map in key order and binds to each
    /// key what `f` gives for the key and the value that is bound to it.
    #[verifier::loop_isolation(false)]
    #[verifier::rlimit(50)]
    pub fn iter_mut<S: Slab<Node<K, V>>, F: Fn(&K, &V) -> V>(&mut self, store: &mut S, f: F)
        requires
            old(self).wf(old(store)),
            forall|k: K, v: V| #[trigger] old(self)@.contains_pair(k, v) ==> call_requires(f, (&k, &v)),
        ensures
            final(self).wf(final(store)),
            final(self)@.dom() == old(self)@.dom(),
            forall|k: K| #[trigger]
                final(self)@.dom().contains(k) ==> call_ensures(f, (&k, &old(self)@[k]), final(self)@[k]),
            final(self).nodes() == old(self).nodes(),
            evolves(old(store).cells(), final(store).cells(), old(self).nodes(), final(self).nodes()),
    {
        let ghost m0 = self@;
        let ghost c0 = store.cells();
        let ghost n0 = self.nodes();
        proof {
            lemma_order_laws::<K>();
            self.lemma_nodes_occupied(c0);
            crate::remove::lemma_no_change(c0, self.shape@.nodes, self.root, self.shape@);
        }
        let mut addr = self.first_item_address(store);
        let ghost mut pending = m0.dom();
        proof {
            match addr {
                Some(start) => {
                    assert(pending =~= crate::iter::keys_between(
                        m0,
                        Some(self.item_of(store.cells(), start).key),
                        None,
                    ));
                },
                None => {
                    self.lemma_empty(store.cells());
                },
            }
        }
        loop
            invariant
                self.wf(store),
                self@.dom() == m0.dom(),
                self.nodes() == n0,
                evolves(c0, store.cells(), n0, n0),
                pending.subset_of(m0.dom()),
                pending.finite(),
                match addr {
                    Some(at) => self.is_item_address(store.cells(), at) && pending
                        == crate::iter::keys_between(
                        m0,
                        Some(self.item_of(store.cells(), at).key),
                        None,
                    ),
                    None => pending =~= Set::<K>::empty(),
                },
                forall|k: K| pending.contains(k) ==> self@[k] == m0[k],
                forall|k: K|
                    m0.dom().contains(k) && !pending.contains(k) ==> call_ensures(
                        f,
                        (&k, &m0[k]),
                        self@[k],
                    ),
            decreases pending.len(),
        {
            let at = match addr {
                Some(at) => at,
                None => {
                    proof {
                        assert forall|k: K| #[trigger] self@.dom().contains(k) implies call_ensures(
                            f,
                            (&k, &m0[k]),
                            self@[k],
                        ) by {
                            assert(m0.dom().contains(k) && !pending.contains(k));
                        }
                    }
                    return;
                },
            };
            let ghost c1 = store.cells();
            let ghost m1 = self@;
            let item = self.item(store, at).unwrap();
            let ghost k = item.key;
            proof {
                lemma_order_laws::<K>();
                assert(pending.contains(k));
                assert(m0.contains_pair(k, item.value));
                self.lemma_nodes_occupied(c1);
            }
            let value = f(&item.key, &item.value);
            self.replace_value_at(store, at, value);
            proof {
                crate::insert::lemma_evolves_trans(c0, c1, store.cells(), n0, n0, n0);
                assert(self@.dom() =~= m0.dom());
            }
            addr = self.next_item_address(store, at);
            proof {
                let following = crate::tree::next_key(self@, k);
                if following.is_none() {
                    crate::iter::lemma_no_next(self@, k);
                } else {
                    crate::iter::lemma_has_next(self@, k);
                }
                let rest = pending.remove(k);
                assert(crate::iter::keys_between(m0, following, None) =~= rest) by {
                    assert forall|q: K|
                        crate::iter::keys_between(m0, following, None).contains(q) <==> rest.contains(q) by {
                        if m0.dom().contains(q) && q != k && !key_lt(q, k) {
                            assert(key_lt(k, q));
                        }
                        if m0.dom().contains(q) {
                            assert(self@.dom().contains(q));
                        }
                    }
                }
                pending = rest;
            }
        }
    }
}

impl<K: Ord, V> BTreeMap<K, V> {
    /// Goes through the values of the map in key order and binds to each
    /// key what `f` gives for the value that is bound to it.
    pub fn values_mut<S: Slab<Node<K, V>>, F: Fn(&V) -> V>(&mut self, store: &mut S, f: F)
        requires
            old(self).wf(old(store)),
            forall|k: K, v: V| #[trigger] old(self)@.contains_pair(k, v) ==> call_requires(f, (&v,)),
        ensures
            final(self).wf(final(store)),
            final(self)@.dom() == old(self)@.dom(),
            forall|k: K| #[trigger]
                final(self)@.dom().contains(k) ==> call_ensures(f, (&old(self)@[k],), final(self)@[k]),
            final(self).nodes() == old(self).nodes(),
            evolves(old(store).cells(), final(store).cells(), old(self).nodes(), final(self).nodes()),
    {
        let f_ref = &f;
        let on_entry = |k: &K, v: &V| -> (r: V)
            requires
                call_requires(f_ref, (v,)),
            ensures
                call_ensures(f_ref, (v,), r),
            { f_ref(v) };
        self.iter_mut(store, on_entry);
    }
}

impl<K: Ord, V: PartialEq> BTreeMap<K, V> {
    /// Whether this map and `other` hold the same entries.
    #[verifier::loop_isolation(false)]
    pub fn same_entries<C: SlabView<Node<K, V>>, D: SlabView<Node<K, V>>>(
        &self,
        store: &C,
        other: &BTreeMap<K, V>,
        other_store: &D,
    ) -> (r: bool)
        requires
            self.wf(store),
            other.wf(other_store),
            vstd::laws_eq::obeys_concrete_eq::<V>(),
        ensures
            r <==> self@ == other@,
    {
        proof {
            lemma_order_laws::<K>();
            reveal(vstd::laws_eq::obeys_concrete_eq);
        }
        if self.len() != other.len() {
            return false;
        }
        let ghost a = self@;
        let ghost b = other@;
        let mut it1 = self.iter(store);
        let mut it2 = other.iter(other_store);
        loop
            invariant
                it1.wf(),
                it2.wf(),
                it1.map() == self,
                it2.map() == other,
                it1.remaining().subset_of(a.dom()),
                it2.remaining().subset_of(b.dom()),
                it1.remaining().len() == it2.remaining().len(),
                forall|k: K|
                    a.dom().contains(k) && !it1.remaining().contains(k) ==> b.dom().contains(k)
                        && !it2.remaining().contains(k) && a[k] == b[k],
                forall|k: K|
                    b.dom().contains(k) && !it2.remaining().contains(k) ==> a.dom().contains(k)
                        && !it1.remaining().contains(k),
            decreases it1.remaining().len(),
        {
            let ghost r1 = it1.remaining();
            let ghost r2 = it2.remaining();
            proof {
                it1.lemma_finite();
                it2.lemma_finite();
                vstd::set_lib::lemma_set_empty_equivalency_len(r1);
                vstd::set_lib::lemma_set_empty_equivalency_len(r2);
            }
            match (it1.next(), it2.next()) {
                (Some((k1, v1)), Some((k2, v2))) => {
                    match compare(k1, k2) {
                        Relation::Equal => {
                            if !(*v1 == *v2) {
                                proof {
                                    assert(a[*k1] != b[*k1]);
                                }
                                return false;
                            }
                        },
                        Relation::Less => {
                            proof {
                                // the lesser key is in this map only
                                assert(!r2.contains(*k1));
                                assert(!b.dom().contains(*k1));
                            }
                            return false;
                        },
                        Relation::Greater => {
                            proof {
                                assert(!r1.contains(*k2));
                                assert(!a.dom().contains(*k2));
                            }
                            return false;
                        },
                    }
                },
                (None, None) => {
                    proof {
                        assert(a =~= b);
                    }
                    return true;
                },
                _ => {
                    proof {
                        assert(false);
                    }
                    return false;
                },
            }
        }
    }
}

impl<K: Ord, V: Ord> BTreeMap<K, V> {
    /// Compares this map with `other`: their entries in key order, one after
    /// the other, keys before values.
    #[verifier::loop_isolation(false)]
    pub fn compare_entries<C: SlabView<Node<K, V>>, D: SlabView<Node<K, V>>>(
        &self,
        store: &C,
        other: &BTreeMap<K, V>,
        other_store: &D,
    ) -> (r: Relation)
        requires
            self.wf(store),
            other.wf(other_store),
            total_order::<V>(),
        ensures
            r == lexicographic(listing(self@), listing(other@), 0),
            r == Relation::Equal <==> self@ == other@,
    {
        let xs = self.to_vec(store);
        let ys = other.to_vec(other_store);
        let ghost a = xs@.map_values(|e: (&K, &V)| (*e.0, *e.1));
        let ghost b = ys@.map_values(|e: (&K, &V)| (*e.0, *e.1));
        proof {
            lemma_order_laws::<K>();
            lemma_order_laws::<V>();
            assert forall|k: K| self@.dom().contains(k) implies exists|i: int|
                0 <= i < a.len() && (#[trigger] a[i]).0 == k by {
                let i = choose|i: int| 0 <= i < xs@.len() && *(#[trigger] xs@[i]).0 == k;
                assert(a[i].0 == k);
            }
            assert forall|k: K| other@.dom().contains(k) implies exists|i: int|
                0 <= i < b.len() && (#[trigger] b[i]).0 == k by {
                let i = choose|i: int| 0 <= i < ys@.len() && *(#[trigger] ys@[i]).0 == k;
                assert(b[i].0 == k);
            }
            assert(lists(self@, a));
            assert(lists(other@, b));
            lemma_listing_unique(self@, a, a);
            lemma_listing_unique(other@, b, b);
        }
        let mut at: usize = 0;
        loop
            invariant
                at <= xs@.len(),
                at <= ys@.len(),
                lexicographic(a, b, 0) == lexicographic(a, b, at as int),
                forall|i: int| 0 <= i < at ==> a[i] == b[i],
            decreases xs@.len() - at,
        {
            if at == xs.len() {
                if at == ys.len() {
                    proof {
                        assert(a =~= b);
                        lemma_same_listing(self@, other@, a);
                    }
                    return Relation::Equal;
                }
                proof {
                    lemma_other_listing(self@, other@, a, b);
                }
                return Relation::Less;
            }
            if at == ys.len() {
                proof {
                    lemma_other_listing(self@, other@, a, b);
                }
                return Relation::Greater;
            }
            let (k1, v1) = xs[at];
            let (k2, v2) = ys[at];
            proof {
                assert(a[at as int] == (*k1, *v1));
                assert(b[at as int] == (*k2, *v2));
                if self@ == other@ {
                    lemma_listing_unique(self@, a, b);
                }
            }
            match compare(k1, k2) {
                Relation::Less => {
                    return Relation::Less;
                },
                Relation::Greater => {
                    return Relation::Greater;
                },
                Relation::Equal => {},
            }
            match compare(v1, v2) {
                Relation::Less => {
                    return Relation::Less;
                },
                Relation::Greater => {
                    return Relation::Greater;
                },
                Relation::Equal => {},
            }
            at = at + 1;
        }
    }
}

/// Maps with one list of entries are one map.
proof fn lemma_same_listing<K: Ord, V>(m: Map<K, V>, n: Map<K, V>, a: Seq<(K, V)>)
    requires
        lists(m, a),
        lists(n, a),
    ensures
        m == n,
{
    assert forall|k: K| m.dom().contains(k) implies n.dom().contains(k) && n[k] == m[k] by {
        let i = choose|i: int| 0 <= i < a.len() && (#[trigger] a[i]).0 == k;
        assert(n.contains_pair(a[i].0, a[i].1));
        assert(m.contains_pair(a[i].0, a[i].1));
    }
    assert forall|k: K| n.dom().contains(k) implies m.dom().contains(k) by {
        let i = choose|i: int| 0 <= i < a.len() && (#[trigger] a[i]).0 == k;
        assert(m.contains_pair(a[i].0, a[i].1));
    }
    assert(m =~= n);
}

/// Maps whose lists of entries differ in length are two maps.
proof fn lemma_other_listing<K: Ord, V>(m: Map<K, V>, n: Map<K, V>, a: Seq<(K, V)>, b: Seq<(K, V)>)
    requires
        total_order::<K>(),
        lists(m, a),
        lists(n, b),
        a.len() != b.len(),
    ensures
        m != n,
{
    if m == n {
        lemma_listing_unique(m, a, b);
    }
}

} // verus!
