//! Iteration over the entries of a map whose keys lie between two bounds.

use vstd::prelude::*;
use crate::addr::Address;
use crate::iter::{keys_between, lemma_has_next, lemma_no_next};
use crate::tree::evolves;
use crate::map::BTreeMap;
use crate::node::{Item, Node};
use crate::order::{compare, key_lt, lemma_order_laws, total_order, Relation};
use crate::slab::{Slab, SlabView};
use crate::tree::{
    is_next, lemma_holder, lemma_leaf_gap, lemma_nodes_in_cells, lemma_unique, next_key, node_ok,
    Cells,
};

verus! {

/// An end of a range of keys.
pub enum Bound<T> {
    /// The range reaches to this key and includes it.
    Included(T),
    /// The range reaches to this key and leaves it out.
    Excluded(T),
    /// The range has no end on this side.
    Unbounded,
}

/// `q` is not before the start `start` of a range.
pub open spec fn after_start<K: Ord>(start: Bound<&K>, q: K) -> bool {
    match start {
        Bound::Included(s) => !key_lt(q, *s),
        Bound::Excluded(s) => key_lt(*s, q),
        Bound::Unbounded => true,
    }
}

/// `q` is not after the end `end` of a range.
pub open spec fn before_end<K: Ord>(end: Bound<&K>, q: K) -> bool {
    match end {
        Bound::Included(e) => !key_lt(*e, q),
        Bound::Excluded(e) => key_lt(q, *e),
        Bound::Unbounded => true,
    }
}

/// The start of the range is not after its end, and the two are not the same
/// key left out twice.
pub open spec fn valid_range<K: Ord>(start: Bound<&K>, end: Bound<&K>) -> bool {
    match (start, end) {
        (Bound::Included(s), Bound::Included(e)) => !key_lt(*e, *s),
        (Bound::Included(s), Bound::Excluded(e)) => !key_lt(*e, *s),
        (Bound::Excluded(s), Bound::Included(e)) => !key_lt(*e, *s),
        (Bound::Excluded(s), Bound::Excluded(e)) => key_lt(*s, *e),
        _ => true,
    }
}

/// Whether the two bounds make a range: the start is not after the end, and
/// the two are not the same key left out twice.
pub fn is_valid_range<K: Ord>(start: &Bound<&K>, end: &Bound<&K>) -> (r: bool)
    requires
        total_order::<K>(),
    ensures
        r == valid_range(*start, *end),
{
    proof {
        lemma_order_laws::<K>();
    }
    match (start, end) {
        (Bound::Included(s), Bound::Included(e)) => !matches!(compare(*s, *e), Relation::Greater),
        (Bound::Included(s), Bound::Excluded(e)) => !matches!(compare(*s, *e), Relation::Greater),
        (Bound::Excluded(s), Bound::Included(e)) => !matches!(compare(*s, *e), Relation::Greater),
        (Bound::Excluded(s), Bound::Excluded(e)) => matches!(compare(*s, *e), Relation::Less),
        _ => true,
    }
}

/// Iterates the entries of a map whose keys lie in a range, in key order.
/// Entries can be taken from the front and from the back until the two ends
/// meet.
#[verifier::reject_recursive_types(K)]
pub struct Range<'a, K, V, S> {
    map: &'a BTreeMap<K, V>,
    store: &'a S,
    /// The place of the next item from the front.
    addr: Address,
    /// The place after the next item from the back.
    end: Address,
}

impl<K: Ord, V> BTreeMap<K, V> {
    /// `addr` is the one address that stands for its place: nowhere in an
    /// empty map, the address of an item, or the end of the last leaf.
    pub open(crate) spec fn is_canonical(&self, cells: Cells<K, V>, addr: Address) -> bool {
        if self.root().is_none() {
            addr.id == usize::MAX && addr.offset.as_int() == 0
        } else {
            self.is_item_address(cells, addr) || self.is_place(cells, addr, None)
        }
    }

    /// The key at or after a place that is canonical; `None` for nowhere.
    pub open(crate) spec fn key_from(&self, cells: Cells<K, V>, addr: Address) -> Option<K> {
        if self.root().is_none() {
            None
        } else {
            self.next_of(cells, addr)
        }
    }

    /// Two canonical addresses with the same key are the same address.
    pub proof fn lemma_canonical_unique(&self, cells: Cells<K, V>, a: Address, b: Address)
        requires
            total_order::<K>(),
            self.inv(cells),
            self.is_canonical(cells, a),
            self.is_canonical(cells, b),
            self.key_from(cells, a) == self.key_from(cells, b),
        ensures
            a == b,
    {
        lemma_order_laws::<K>();
        if self.root.is_none() {
            a.offset.lemma_same(b.offset);
        } else {
            let root = self.root.unwrap();
            let g = self.shape@;
            lemma_nodes_in_cells(cells, root, g, None, None);
            assert(node_ok(cells, root, g, a.id));
            assert(node_ok(cells, root, g, b.id));
            match self.next_of(cells, a) {
                Some(k) => {
                    lemma_unique(
                        cells,
                        root,
                        g,
                        None,
                        None,
                        a.id,
                        a.offset.as_int(),
                        b.id,
                        b.offset.as_int(),
                        k,
                    );
                },
                None => {
                    // both are the end of a leaf whose interval has no end
                    assert(crate::tree::node_fill(cells, root, None, None, a.id));
                    assert(crate::tree::node_fill(cells, root, None, None, b.id));
                    let x = cells[a.id]@.items[0].key;
                    let y = cells[b.id]@.items[0].key;
                    assert(crate::tree::in_range(g, a.id, x));
                    assert(crate::tree::in_range(g, b.id, y));
                    if key_lt(x, y) {
                        assert(crate::tree::holds(cells, g, b.id, 0, y));
                        lemma_holder(cells, root, g, None, None, a.id, b.id, 0, y);
                    } else {
                        assert(crate::tree::holds(cells, g, a.id, 0, x));
                        lemma_holder(cells, root, g, None, None, b.id, a.id, 0, x);
                    }
                },
            }
            a.offset.lemma_same(b.offset);
        }
    }

    /// The address that stands for the place `addr` in a leaf: the address of
    /// the item at or after the place, or the end of the last leaf where no
    /// item follows.
    pub fn shift_to_start<S: SlabView<Node<K, V>>>(&self, store: &S, addr: Address) -> (r: Address)
        requires
            self.wf(store),
            self.root().is_some(),
            self.is_back_address(store.cells(), addr),
            self.is_item_address(store.cells(), addr) || self.in_leaf(store.cells(), addr),
        ensures
            self.is_canonical(store.cells(), r),
            self.key_from(store.cells(), r) == self.next_of(store.cells(), addr),
    {
        match self.normalize(store, addr) {
            Some(item_addr) => item_addr,
            None => addr,
        }
    }

    /// In a leaf, the key at or after the place where a key that the map does
    /// not have would stand is the next greater key of the map.
    #[verifier::rlimit(50)]
    pub proof fn lemma_gap_next(&self, cells: Cells<K, V>, addr: Address, k: K)
        requires
            total_order::<K>(),
            self.inv(cells),
            self.root().is_some(),
            self.is_gap_for(cells, addr, k),
            self.in_leaf(cells, addr),
            !self@.dom().contains(k),
        ensures
            is_next(self@, k, self.next_of(cells, addr)),
            self.is_back_address(cells, addr),
    {
        lemma_order_laws::<K>();
        let root = self.root.unwrap();
        let g = self.shape@;
        let offset = addr.offset.as_int();
        let items = cells[addr.id]@.items;
        lemma_leaf_gap(cells, root, g, self.model@, addr.id, offset);
        let before = crate::tree::prev_at(cells, g, addr.id, offset);
        let after = crate::tree::next_at(cells, g, addr.id, offset);
        assert(crate::tree::in_range(g, addr.id, k));
        if offset > 0 {
            assert(key_lt(items[offset - 1].key, k));
        }
        if offset < items.len() {
            assert(key_lt(k, items[offset].key));
        }
        if before.is_some() {
            assert(key_lt(before.unwrap(), k));
        }
        if after.is_some() {
            assert(key_lt(k, after.unwrap()));
        }
        match after {
            Some(n) => {
                assert forall|q: K| #[trigger] self@.dom().contains(q) && key_lt(k, q) implies !key_lt(
                    q,
                    n,
                ) by {
                    if key_lt(q, n) {
                        if before.is_some() {
                            assert(!key_lt(before.unwrap(), q));
                        }
                    }
                }
            },
            None => {
                assert forall|q: K| #[trigger] self@.dom().contains(q) implies !key_lt(k, q) by {
                    if key_lt(k, q) {
                        if before.is_some() {
                            assert(!key_lt(before.unwrap(), q));
                        }
                    }
                }
            },
        }
    }

    /// In a leaf, the place before the next greater key of a key that the map
    /// does not have is the place where that key would stand.
    #[verifier::rlimit(50)]
    pub proof fn lemma_next_gap(&self, cells: Cells<K, V>, addr: Address, k: K)
        requires
            total_order::<K>(),
            self.inv(cells),
            self.root().is_some(),
            self.is_back_address(cells, addr),
            self.in_leaf(cells, addr),
            !self@.dom().contains(k),
            is_next(self@, k, self.next_of(cells, addr)),
        ensures
            self.is_gap_for(cells, addr, k),
    {
        lemma_order_laws::<K>();
        let root = self.root.unwrap();
        let g = self.shape@;
        let offset = addr.offset.as_int();
        let items = cells[addr.id]@.items;
        lemma_leaf_gap(cells, root, g, self.model@, addr.id, offset);
        let before = crate::tree::prev_at(cells, g, addr.id, offset);
        let after = crate::tree::next_at(cells, g, addr.id, offset);
        assert(node_ok(cells, root, g, addr.id));
        // what comes before the place is a key of the map below the next key,
        // so it is below the new key
        if before.is_some() {
            let b = before.unwrap();
            assert(self@.dom().contains(b));
            assert(b != k);
            if key_lt(k, b) {
                match after {
                    Some(n) => {
                        assert(!key_lt(b, n));
                        if offset > 0 && offset < items.len() {
                            assert(key_lt(items[offset - 1].key, items[offset].key));
                        }
                        if offset > 0 {
                            assert(crate::tree::in_range(g, addr.id, items[offset - 1].key));
                        }
                        if offset < items.len() {
                            assert(crate::tree::in_range(g, addr.id, items[offset].key));
                        }
                        assert(key_lt(b, n));
                    },
                    None => {},
                }
                assert(false);
            }
            assert(key_lt(b, k));
        }
        if offset > 0 {
            assert(crate::tree::in_range(g, addr.id, items[offset - 1].key));
        }
        if offset < items.len() {
            assert(crate::tree::in_range(g, addr.id, items[offset].key));
        }
        assert forall|j: int| 0 <= j < offset implies key_lt((#[trigger] items[j]).key, k) by {
            if j < offset - 1 {
                assert(key_lt(items[j].key, items[offset - 1].key));
            }
        }
        assert forall|j: int| offset <= j < items.len() implies key_lt(k, (#[trigger] items[j]).key) by {
            if offset < j {
                assert(key_lt(items[offset].key, items[j].key));
            }
        }
    }

    /// Puts `item`, whose key the map does not have, at the place `addr`,
    /// which is the place before the next greater key of the map, or nowhere
    /// if the map is empty. Returns the address of the item afterwards.
    pub fn insert_at<S: crate::slab::Slab<Node<K, V>>>(
        &mut self,
        store: &mut S,
        addr: Address,
        item: Item<K, V>,
    ) -> (r: Address)
        requires
            old(self).wf(old(store)),
            old(self)@.dom().len() < usize::MAX,
            !old(self)@.dom().contains(item.key),
            if old(self).root().is_none() {
                addr.id == usize::MAX
            } else {
                old(self).is_back_address(old(store).cells(), addr) && is_next(
                    old(self)@,
                    item.key,
                    old(self).next_of(old(store).cells(), addr),
                )
            },
        ensures
            final(self).wf(final(store)),
            final(self)@ == old(self)@.insert(item.key, item.value),
            final(self).is_item_address(final(store).cells(), r),
            final(self).item_of(final(store).cells(), r).key == item.key,
            crate::tree::evolves(
                old(store).cells(),
                final(store).cells(),
                old(self).nodes(),
                final(self).nodes(),
            ),
    {
        proof {
            if self.root.is_some() {
                assert(node_ok(store.cells(), self.root.unwrap(), self.shape@, addr.id));
            }
        }
        let leaf_addr = self.leaf_address(store, addr);
        proof {
            if self.root.is_some() {
                self.lemma_next_gap(store.cells(), leaf_addr, item.key);
            }
        }
        self.insert_exactly_at(store, leaf_addr, item, None)
    }

    /// An iterator over the entries of the map whose keys lie between `start`
    /// and `end`, in key order.
    #[verifier::rlimit(50)]
    pub fn range<'a, S: SlabView<Node<K, V>>>(
        &'a self,
        store: &'a S,
        start: Bound<&K>,
        end: Bound<&K>,
    ) -> (range: Range<'a, K, V, S>)
        requires
            self.wf(store),
            valid_range(start, end),
        ensures
            range.wf(),
            range.map() == self,
            range.store() == store,
            forall|q: K|
                range.remaining().contains(q) <==> self@.dom().contains(q) && after_start(start, q)
                    && before_end(end, q),
    {
        proof {
            lemma_order_laws::<K>();
            self.lemma_empty(store.cells());
        }
        let ghost cells = store.cells();
        let ghost model = self@;
        if self.root.is_none() {
            let range = Range { map: self, store, addr: Address::nowhere(), end: Address::nowhere() };
            return range;
        }
        let addr = match start {
            Bound::Included(s) => match self.address_of(store, s) {
                Ok(addr) => addr,
                Err(addr) => {
                    proof {
                        self.lemma_gap_next(cells, addr, *s);
                    }
                    self.shift_to_start(store, addr)
                },
            },
            Bound::Excluded(s) => match self.address_of(store, s) {
                Ok(addr) => {
                    proof {
                        if next_key(model, *s).is_none() {
                            lemma_no_next(model, *s);
                        } else {
                            lemma_has_next(model, *s);
                        }
                    }
                    self.next_item_or_back_address(store, addr).unwrap()
                },
                Err(addr) => {
                    proof {
                        self.lemma_gap_next(cells, addr, *s);
                    }
                    self.shift_to_start(store, addr)
                },
            },
            Bound::Unbounded => self.first_back_address(store),
        };
        let end_addr = match end {
            Bound::Included(e) => match self.address_of(store, e) {
                Ok(addr) => {
                    proof {
                        if next_key(model, *e).is_none() {
                            lemma_no_next(model, *e);
                        } else {
                            lemma_has_next(model, *e);
                        }
                    }
                    self.next_item_or_back_address(store, addr).unwrap()
                },
                Err(addr) => {
                    proof {
                        self.lemma_gap_next(cells, addr, *e);
                    }
                    self.shift_to_start(store, addr)
                },
            },
            Bound::Excluded(e) => match self.address_of(store, e) {
                Ok(addr) => addr,
                Err(addr) => {
                    proof {
                        self.lemma_gap_next(cells, addr, *e);
                    }
                    self.shift_to_start(store, addr)
                },
            },
            Bound::Unbounded => self.last_valid_address(store),
        };
        let range = Range { map: self, store, addr, end: end_addr };
        proof {
            let from = range.front();
            let to = range.back();
            // the front is the least key of the map that is not before the start
            assert forall|q: K| model.dom().contains(q) implies (after_start(start, q) <==> (
            from.is_some() && !key_lt(q, from.unwrap()))) by {}
            assert(from.is_some() ==> model.dom().contains(from.unwrap())) by {
                if from.is_some() {
                    self.lemma_item_is_entry(cells, addr);
                }
            }
            // the back is the least key of the map that is after the end
            assert forall|q: K| model.dom().contains(q) implies (before_end(end, q) <==> (to.is_none()
                || key_lt(q, to.unwrap()))) by {}
            if to.is_some() {
                self.lemma_item_is_entry(cells, end_addr);
                let t = to.unwrap();
                assert(!before_end(end, t));
                assert(after_start(start, t));
            }
        }
        range
    }
}

impl<K: Ord, V> BTreeMap<K, V> {
    /// The addresses of the items whose keys lie between `start` and `end`,
    /// in key order.
    pub fn range_addresses<S: SlabView<Node<K, V>>>(&self, store: &S, start: Bound<&K>, end: Bound<&K>) -> (list:
        Vec<Address>)
        requires
            self.wf(store),
            valid_range(start, end),
        ensures
            forall|j: int|
                0 <= j < list@.len() ==> {
                    let key = self.item_of(store.cells(), #[trigger] list@[j]).key;
                    &&& self.is_item_address(store.cells(), list@[j])
                    &&& self@.dom().contains(key)
                    &&& after_start(start, key)
                    &&& before_end(end, key)
                },
            forall|i: int, j: int|
                0 <= i < j < list@.len() ==> key_lt(
                    self.item_of(store.cells(), #[trigger] list@[i]).key,
                    self.item_of(store.cells(), #[trigger] list@[j]).key,
                ),
            forall|k: K|
                self@.dom().contains(k) && after_start(start, k) && before_end(end, k) ==> exists|j: int|
                    0 <= j < list@.len() && self.item_of(store.cells(), #[trigger] list@[j]).key == k,
    {
        let ghost cells = store.cells();
        let mut list: Vec<Address> = Vec::new();
        let mut range = self.range(store, start, end);
        let ghost all = range.remaining();
        proof {
            lemma_order_laws::<K>();
        }
        loop
            invariant
                total_order::<K>(),
                self.wf(store),
                cells == store.cells(),
                range.wf(),
                range.map() == self,
                range.store() == store,
                range.remaining().subset_of(all),
                forall|q: K|
                    all.contains(q) <==> self@.dom().contains(q) && after_start(start, q) && before_end(
                        end,
                        q,
                    ),
                forall|j: int|
                    0 <= j < list@.len() ==> {
                        let key = self.item_of(cells, #[trigger] list@[j]).key;
                        &&& self.is_item_address(cells, list@[j])
                        &&& all.contains(key)
                        &&& !range.remaining().contains(key)
                        &&& forall|q: K| range.remaining().contains(q) ==> key_lt(key, q)
                    },
                forall|i: int, j: int|
                    0 <= i < j < list@.len() ==> key_lt(
                        self.item_of(cells, #[trigger] list@[i]).key,
                        self.item_of(cells, #[trigger] list@[j]).key,
                    ),
                forall|k: K|
                    all.contains(k) && !range.remaining().contains(k) ==> exists|j: int|
                        0 <= j < list@.len() && self.item_of(cells, #[trigger] list@[j]).key == k,
            decreases range.remaining().len(),
        {
            let ghost rest = range.remaining();
            let ghost before = list@;
            proof {
                lemma_order_laws::<K>();
                range.lemma_finite();
            }
            match range.next_address() {
                Some(place) => {
                    let ghost key = self.item_of(cells, place).key;
                    list.push(place);
                    proof {
                        assert forall|k: K| all.contains(k) && !range.remaining().contains(k) implies exists|
                            j: int,
                        |
                            0 <= j < list@.len() && self.item_of(cells, #[trigger] list@[j]).key == k by {
                            if k == key {
                                assert(list@[before.len() as int] == place);
                            } else {
                                assert(!rest.contains(k));
                                let j = choose|j: int|
                                    0 <= j < before.len() && self.item_of(cells, #[trigger] before[j]).key == k;
                                assert(list@[j] == before[j]);
                            }
                        }
                        assert forall|j: int| 0 <= j < list@.len() implies {
                            let kj = self.item_of(cells, #[trigger] list@[j]).key;
                            &&& self.is_item_address(cells, list@[j])
                            &&& all.contains(kj)
                            &&& !range.remaining().contains(kj)
                            &&& forall|q: K| range.remaining().contains(q) ==> key_lt(kj, q)
                        } by {
                            if j < before.len() {
                                assert(list@[j] == before[j]);
                            } else {
                                assert forall|q: K| range.remaining().contains(q) implies key_lt(key, q) by {
                                    assert(rest.contains(q));
                                }
                            }
                        }
                        assert forall|i: int, j: int| 0 <= i < j < list@.len() implies key_lt(
                            self.item_of(cells, #[trigger] list@[i]).key,
                            self.item_of(cells, #[trigger] list@[j]).key,
                        ) by {
                            assert(list@[i] == before[i]);
                            if j < before.len() {
                                assert(list@[j] == before[j]);
                            }
                        }
                    }
                },
                None => {
                    proof {
                        assert forall|j: int| 0 <= j < list@.len() implies self@.dom().contains(
                            self.item_of(cells, #[trigger] list@[j]).key,
                        ) by {
                            self.lemma_item_is_entry(cells, list@[j]);
                        }
                    }
                    return list;
                },
            }
        }
    }

    /// Binds to each key between `start` and `end` what `f` gives for the
    /// key and the value that is bound to it. The other entries stay as they
    /// are.
    pub fn range_mut<S: Slab<Node<K, V>>, F: Fn(&K, &V) -> V>(
        &mut self,
        store: &mut S,
        start: Bound<&K>,
        end: Bound<&K>,
        f: F,
    )
        requires
            old(self).wf(old(store)),
            valid_range(start, end),
            forall|k: K, v: V|
                #[trigger] old(self)@.contains_pair(k, v) && after_start(start, k) && before_end(end, k)
                    ==> call_requires(f, (&k, &v)),
        ensures
            final(self).wf(final(store)),
            final(self)@.dom() == old(self)@.dom(),
            forall|k: K| #[trigger]
                final(self)@.dom().contains(k) ==> (if after_start(start, k) && before_end(end, k) {
                    call_ensures(f, (&k, &old(self)@[k]), final(self)@[k])
                } else {
                    final(self)@[k] == old(self)@[k]
                }),
            final(self).nodes() == old(self).nodes(),
            evolves(old(store).cells(), final(store).cells(), old(self).nodes(), final(self).nodes()),
    {
        let ghost m0 = self@;
        let ghost c0 = store.cells();
        let ghost n0 = self.nodes();
        proof {
            lemma_order_laws::<K>();
            self.lemma_nodes_occupied(c0);
            crate::remove::lemma_no_change(c0, self.shape@.nodes, self.root, self.shape@);
        }
        let list = self.range_addresses(&*store, start, end);
        let ghost keys = Seq::new(list@.len(), |j: int| self.item_of(c0, list@[j]).key);
        proof {
            assert forall|j: int| 0 <= j < list@.len() implies self.is_item_address(
                c0,
                #[trigger] list@[j],
            ) && self.item_of(c0, list@[j]).key == keys[j] by {}
        }
        let mut i: usize = 0;
        while i < list.len()
            invariant
                total_order::<K>(),
                self.wf(store),
                self@.dom() == m0.dom(),
                self.nodes() == n0,
                evolves(c0, store.cells(), n0, n0),
                i <= list@.len(),
                keys.len() == list@.len(),
                forall|j: int| 0 <= j < list@.len() ==> #[trigger] keys[j] == old(self).item_of(c0, list@[j]).key,
                forall|a: int, b: int| 0 <= a < b < keys.len() ==> key_lt(#[trigger] keys[a], #[trigger] keys[b]),
                forall|j: int|
                    0 <= j < keys.len() ==> m0.dom().contains(#[trigger] keys[j]) && after_start(
                        start,
                        keys[j],
                    ) && before_end(end, keys[j]),
                forall|k: K, v: V|
                    #[trigger] m0.contains_pair(k, v) && after_start(start, k) && before_end(end, k)
                        ==> call_requires(f, (&k, &v)),
                m0 == old(self)@,
                forall|y: usize| n0.contains(y) ==> c0.dom().contains(y),
                forall|j: int|
                    i <= j < list@.len() ==> self.is_item_address(store.cells(), #[trigger] list@[j])
                        && self.item_of(store.cells(), list@[j]).key == keys[j],
                forall|j: int| 0 <= j < i ==> call_ensures(f, (&keys[j], &m0[keys[j]]), self@[#[trigger] keys[j]]),
                forall|k: K|
                    m0.dom().contains(k) && !(exists|j: int| 0 <= j < i && #[trigger] keys[j] == k)
                        ==> self@[k] == m0[k],
            decreases list@.len() - i,
        {
            let ghost c1 = store.cells();
            let ghost m1 = self@;
            let at = list[i];
            let item = self.item(&*store, at).unwrap();
            let ghost k = item.key;
            proof {
                lemma_order_laws::<K>();
                assert(k == keys[i as int]);
                assert(m0.dom().contains(k));
                assert(!(exists|j: int| 0 <= j < i && #[trigger] keys[j] == k)) by {
                    assert forall|j: int| 0 <= j < i implies #[trigger] keys[j] != k by {
                        assert(key_lt(keys[j], keys[i as int]));
                    }
                }
                assert(m0.contains_pair(k, item.value));
                self.lemma_nodes_occupied(c1);
            }
            let value = f(&item.key, &item.value);
            self.replace_value_at(store, at, value);
            proof {
                crate::insert::lemma_evolves_trans(c0, c1, store.cells(), n0, n0, n0);
                assert(self@.dom() =~= m0.dom());
                assert forall|j: int| i < j < list@.len() implies self.is_item_address(
                    store.cells(),
                    #[trigger] list@[j],
                ) && self.item_of(store.cells(), list@[j]).key == keys[j] by {
                    assert(key_lt(keys[i as int], keys[j]));
                    assert(keys[j] != k);
                }
                assert forall|j: int| 0 <= j < i + 1 implies call_ensures(
                    f,
                    (&keys[j], &m0[keys[j]]),
                    self@[#[trigger] keys[j]],
                ) by {
                    if j < i {
                        assert(key_lt(keys[j], keys[i as int]));
                        assert(keys[j] != k);
                    }
                }
                assert forall|q: K|
                    m0.dom().contains(q) && !(exists|j: int| 0 <= j < i + 1 && #[trigger] keys[j] == q)
                    implies self@[q] == m0[q] by {
                    assert(keys[i as int] == k);
                    assert(q != k);
                    if exists|j: int| 0 <= j < i && #[trigger] keys[j] == q {
                        let j = choose|j: int| 0 <= j < i && #[trigger] keys[j] == q;
                        assert(0 <= j < i + 1 && keys[j] == q);
                    }
                }
            }
            i = i + 1;
        }
        proof {
            assert forall|k: K| #[trigger] self@.dom().contains(k) implies (if after_start(start, k)
                && before_end(end, k) {
                call_ensures(f, (&k, &m0[k]), self@[k])
            } else {
                self@[k] == m0[k]
            }) by {
                if after_start(start, k) && before_end(end, k) {
                    let j = choose|j: int| 0 <= j < list@.len() && self.item_of(c0, #[trigger] list@[j]).key == k;
                    assert(keys[j] == k);
                } else {
                    if exists|j: int| 0 <= j < list@.len() && #[trigger] keys[j] == k {
                        let j = choose|j: int| 0 <= j < list@.len() && #[trigger] keys[j] == k;
                        assert(self.item_of(c0, list@[j]).key == k);
                    }
                }
            }
        }
    }
}

impl<'a, K: Ord, V, S: SlabView<Node<K, V>>> Range<'a, K, V, S> {
    /// The map that is iterated.
    pub closed spec fn map(&self) -> &'a BTreeMap<K, V> {
        self.map
    }

    /// The slab of the map.
    pub closed spec fn store(&self) -> &'a S {
        self.store
    }

    /// The key of the next entry from the front, unless the front has
    /// reached the end of the map.
    pub closed spec fn front(&self) -> Option<K> {
        self.map.key_from(self.store.cells(), self.addr)
    }

    /// The least key of the map that is beyond the back of the range, if
    /// there is one.
    pub closed spec fn back(&self) -> Option<K> {
        self.map.key_from(self.store.cells(), self.end)
    }

    /// The keys of the entries still to come.
    pub open spec fn remaining(&self) -> Set<K> {
        keys_between(self.map()@, self.front(), self.back())
    }

    /// The iterator is in order: its ends are places of the map, and the
    /// front is not beyond the back.
    pub closed spec fn wf(&self) -> bool {
        &&& self.map.wf(self.store)
        &&& self.map.is_canonical(self.store.cells(), self.addr)
        &&& self.map.is_canonical(self.store.cells(), self.end)
        &&& self.front().is_some() ==> self.map@.dom().contains(self.front().unwrap())
        &&& self.back().is_some() ==> self.map@.dom().contains(self.back().unwrap())
            && self.front().is_some() && !key_lt(self.back().unwrap(), self.front().unwrap())
    }

    /// The entries still to come are finitely many.
    pub proof fn lemma_finite(&self)
        requires
            self.wf(),
        ensures
            self.remaining().finite(),
            self.map().wf(self.store()),
    {
        vstd::set_lib::lemma_set_subset_finite(self.map@.dom(), self.remaining());
    }

    /// The two ends have met exactly when no entry is to come.
    proof fn lemma_met(&self)
        requires
            self.wf(),
        ensures
            self.addr == self.end <==> self.remaining() =~= Set::<K>::empty(),
            self.addr != self.end ==> self.front().is_some() && self.remaining().contains(
                self.front().unwrap(),
            ),
    {
        lemma_order_laws::<K>();
        let cells = self.store.cells();
        if self.addr != self.end {
            if self.front() == self.back() {
                self.map.lemma_canonical_unique(cells, self.addr, self.end);
            }
            if self.front().is_none() {
                assert(self.back().is_none());
            }
            let f = self.front().unwrap();
            if self.back().is_some() {
                let b = self.back().unwrap();
                assert(f != b);
                assert(key_lt(f, b) || key_lt(b, f));
            }
            assert(self.remaining().contains(f));
        } else {
            assert forall|q: K| !self.remaining().contains(q) by {}
        }
    }

    /// Takes the next entry from the front: the one with the least key among
    /// those still to come.
    pub fn next(&mut self) -> (entry: Option<(&'a K, &'a V)>)
        where
            K: 'a,
        requires
            old(self).wf(),
        ensures
            final(self).wf(),
            final(self).map() == old(self).map(),
            final(self).store() == old(self).store(),
            final(self).back() == old(self).back(),
            entry.is_none() <==> old(self).remaining() =~= Set::<K>::empty(),
            entry.is_none() ==> final(self).remaining() == old(self).remaining(),
            entry.is_some() ==> {
                &&& old(self).remaining().contains(*entry.unwrap().0)
                &&& old(self).map()@.contains_pair(*entry.unwrap().0, *entry.unwrap().1)
                &&& forall|q: K| old(self).remaining().contains(q) ==> !key_lt(q, *entry.unwrap().0)
                &&& final(self).remaining() == old(self).remaining().remove(*entry.unwrap().0)
            },
    {
        let map: &'a BTreeMap<K, V> = self.map;
        let store: &'a S = self.store;
        match self.next_address() {
            Some(addr) => {
                let item = map.item(store, addr).unwrap();
                Some((&item.key, &item.value))
            },
            None => None,
        }
    }

    /// Takes the address of the next entry from the front.
    pub(crate) fn next_address(&mut self) -> (place: Option<Address>)
        requires
            old(self).wf(),
        ensures
            final(self).wf(),
            final(self).map() == old(self).map(),
            final(self).store() == old(self).store(),
            final(self).back() == old(self).back(),
            place.is_none() <==> old(self).remaining() =~= Set::<K>::empty(),
            place.is_none() ==> final(self).remaining() == old(self).remaining(),
            place.is_some() ==> {
                let key = old(self).map().item_of(old(self).store().cells(), place.unwrap()).key;
                &&& old(self).map().wf(old(self).store())
                &&& old(self).map().is_item_address(old(self).store().cells(), place.unwrap())
                &&& old(self).remaining().contains(key)
                &&& forall|q: K| old(self).remaining().contains(q) ==> !key_lt(q, key)
                &&& final(self).remaining() == old(self).remaining().remove(key)
            },
    {
        proof {
            self.lemma_met();
            lemma_order_laws::<K>();
            self.map.lemma_empty(self.store.cells());
        }
        if self.addr == self.end {
            return None;
        }
        let ghost rest = self.remaining();
        let map: &'a BTreeMap<K, V> = self.map;
        let store: &'a S = self.store;
        let addr = self.addr;
        let ghost k = map.item_of(store.cells(), addr).key;
        proof {
            map.lemma_item_is_entry(store.cells(), addr);
            if next_key(map@, k).is_none() {
                lemma_no_next(map@, k);
            } else {
                lemma_has_next(map@, k);
            }
        }
        self.addr = map.next_item_or_back_address(store, addr).unwrap();
        proof {
            let model = map@;
            assert(self.front() == next_key(model, k));
            if self.front().is_some() {
                map.lemma_item_is_entry(store.cells(), self.addr);
            }
            assert(self.remaining() =~= rest.remove(k)) by {
                assert forall|q: K| self.remaining().contains(q) <==> rest.remove(k).contains(q) by {
                    if model.dom().contains(q) && q != k && !key_lt(q, k) {
                        assert(key_lt(k, q));
                    }
                }
            }
        }
        Some(addr)
    }

    /// Takes the next entry from the back: the one with the greatest key
    /// among those still to come.
    pub fn next_back(&mut self) -> (entry: Option<(&'a K, &'a V)>)
        where
            K: 'a,
        requires
            old(self).wf(),
        ensures
            final(self).wf(),
            final(self).map() == old(self).map(),
            final(self).store() == old(self).store(),
            final(self).front() == old(self).front(),
            entry.is_none() <==> old(self).remaining() =~= Set::<K>::empty(),
            entry.is_none() ==> final(self).remaining() == old(self).remaining(),
            entry.is_some() ==> {
                &&& old(self).remaining().contains(*entry.unwrap().0)
                &&& old(self).map()@.contains_pair(*entry.unwrap().0, *entry.unwrap().1)
                &&& forall|q: K| old(self).remaining().contains(q) ==> !key_lt(*entry.unwrap().0, q)
                &&& final(self).remaining() == old(self).remaining().remove(*entry.unwrap().0)
            },
    {
        proof {
            self.lemma_met();
            lemma_order_laws::<K>();
            self.map.lemma_empty(self.store.cells());
        }
        if self.addr == self.end {
            return None;
        }
        let ghost rest = self.remaining();
        let ghost f = self.front().unwrap();
        let map: &'a BTreeMap<K, V> = self.map;
        let store: &'a S = self.store;
        let found = map.previous_item_address(store, self.end);
        proof {
            assert(rest.contains(f));
            if found.is_none() {
                assert(false);
            }
        }
        let addr = found.unwrap();
        let item = map.item(store, addr).unwrap();
        let ghost k = item.key;
        self.end = addr;
        proof {
            let model = map@;
            assert(rest.contains(k));
            assert(self.back() == Some(k));
            assert(self.remaining() =~= rest.remove(k)) by {
                assert forall|q: K| self.remaining().contains(q) <==> rest.remove(k).contains(q) by {
                    if model.dom().contains(q) && q != k && !key_lt(k, q) {
                        assert(key_lt(q, k));
                    }
                }
            }
        }
        Some((&item.key, &item.value))
    }
}

} // verus!
