//! Maps that are frozen: handles that can be copied freely and only read.
//! The nodes of a frozen map stay in the slab until a collection pass finds
//! that no handle reaches them.

use vstd::prelude::*;
use crate::iter::Iter;
use crate::node::Node;
use crate::order::{key_lt, total_order};
use crate::range::{after_start, before_end, valid_range, Bound, Range};
use crate::slab::{Slab, SlabView};
use crate::store::Store;
use crate::tree::{
    ancestor, child_at, child_ok, in_range, is_next, is_prev, lemma_ancestor, lemma_nodes_in_cells,
    lemma_parent, node_fill, node_ok, tree_ok, Cells, Shape,
};

verus! {

/// A frozen map: a copy of the header of a map that offers reading only.
#[verifier::reject_recursive_types(K)]
pub struct BTreeMap<K, V> {
    inner: crate::map::BTreeMap<K, V>,
}

impl<K, V> View for BTreeMap<K, V> {
    type V = Map<K, V>;

    open spec fn view(&self) -> Map<K, V> {
        self.thawed()@
    }
}

impl<K, V> BTreeMap<K, V> {
    /// The map that was frozen.
    pub closed spec fn thawed(&self) -> crate::map::BTreeMap<K, V> {
        self.inner
    }
}

impl<K, V> Clone for BTreeMap<K, V> {
    /// Another handle of the same frozen map.
    fn clone(&self) -> (copy: Self)
        ensures
            copy == *self,
    {
        BTreeMap { inner: self.inner.header() }
    }
}

/// The node `y` of the tree stands below the node `id`, or is that node.
pub open spec fn descends<K, V>(cells: Cells<K, V>, g: Shape<K>, id: usize, y: usize) -> bool {
    &&& g.nodes.contains(y)
    &&& g.level[y] <= g.level[id]
    &&& ancestor(cells, y, (g.level[id] - g.level[y]) as nat) == id
}

/// A node that stands below another one stands below one of its children, or
/// is that child.
pub proof fn lemma_descends_child<K: Ord, V>(
    cells: Cells<K, V>,
    root: usize,
    g: Shape<K>,
    id: usize,
    y: usize,
)
    requires
        total_order::<K>(),
        tree_ok(cells, root, g, None, None),
        g.nodes.contains(id),
        descends(cells, g, id, y),
        y != id,
    ensures
        exists|i: int| 0 <= i < cells[id]@.children.len() && #[trigger] descends(cells, g, cells[id]@.children[i], y),
{
    assert(node_ok(cells, root, g, y));
    assert(node_ok(cells, root, g, root));
    assert(node_fill(cells, root, None, None, y));
    let k = cells[y]@.items[0].key;
    assert(in_range(g, y, k));
    let n = (g.level[id] - g.level[y]) as nat;
    assert(node_ok(cells, root, g, id));
    assert(n > 0);
    lemma_ancestor(cells, root, g, None, None, y, k, (n - 1) as nat);
    let a = ancestor(cells, y, (n - 1) as nat);
    assert(node_ok(cells, root, g, a));
    assert(cells[a]@.parent == Some(id)) by {
        assert(ancestor(cells, y, n) == cells[a]@.parent.unwrap());
        if a == root {
            lemma_parent(cells, root, g, None, None, id, k);
        }
    }
    let i = choose|i: int| child_at(cells, id, i, a);
    assert(child_at(cells, id, i, a));
    assert(descends(cells, g, cells[id]@.children[i], y));
}

/// Every node of the tree stands below the root.
pub proof fn lemma_descends_root<K: Ord, V>(cells: Cells<K, V>, root: usize, g: Shape<K>, y: usize)
    requires
        total_order::<K>(),
        tree_ok(cells, root, g, None, None),
        g.nodes.contains(y),
    ensures
        descends(cells, g, root, y),
{
    assert(node_ok(cells, root, g, y));
    assert(node_fill(cells, root, None, None, y));
    let k = cells[y]@.items[0].key;
    assert(in_range(g, y, k));
    let n = (g.level[root] - g.level[y]) as nat;
    lemma_ancestor(cells, root, g, None, None, y, k, n);
    let a = ancestor(cells, y, n);
    if a != root {
        lemma_parent(cells, root, g, None, None, a, k);
    }
}

impl<K: Ord, V> BTreeMap<K, V> {
    /// The cells of the slab that are the nodes of this map.
    pub open spec fn nodes(&self) -> Set<usize> {
        self.thawed().nodes()
    }

    /// The frozen map is well formed in `store`.
    pub open spec fn wf<S: SlabView<Node<K, V>>>(&self, store: &S) -> bool {
        self.thawed().wf(store)
    }

    /// Freezes `map`. The nodes of the map stay in the slab.
    pub fn from(map: crate::map::BTreeMap<K, V>) -> (frozen: Self)
        ensures
            frozen.thawed() == map,
    {
        BTreeMap { inner: map }
    }

    /// Another handle of the same frozen map.
    pub fn clone_frozen(&self) -> (copy: Self)
        ensures
            copy == *self,
    {
        BTreeMap { inner: self.inner.header() }
    }

    /// The number of entries.
    pub fn len(&self) -> (len: usize)
        ensures
            self.thawed().counted() ==> len == self@.dom().len(),
    {
        self.inner.len()
    }

    /// Whether the map has no entries.
    pub fn is_empty(&self) -> (r: bool)
        ensures
            self.thawed().counted() ==> (r <==> self@.dom().len() == 0),
    {
        self.inner.is_empty()
    }

    /// Whether the map has an entry with the key `key`.
    pub fn contains_key<S: SlabView<Node<K, V>>>(&self, store: &S, key: &K) -> (r: bool)
        requires
            self.wf(store),
        ensures
            r <==> self@.dom().contains(*key),
    {
        self.inner.contains_key(store, key)
    }

    /// The value bound to `key`, if there is one.
    pub fn get<'a, S: SlabView<Node<K, V>>>(&self, store: &'a S, key: &K) -> (value: Option<&'a V>)
        where
            K: 'a,
        requires
            self.wf(store),
        ensures
            value == (if self@.dom().contains(*key) {
                Some(&self@[*key])
            } else {
                None::<&V>
            }),
    {
        self.inner.get(store, key)
    }

    /// The key of the map that equals `key`, if there is one.
    pub fn get_key<'a, S: SlabView<Node<K, V>>>(&self, store: &'a S, key: &K) -> (found: Option<&'a K>)
        where
            K: 'a,
            V: 'a,
        requires
            self.wf(store),
        ensures
            found == (if self@.dom().contains(*key) {
                Some(key)
            } else {
                None::<&K>
            }),
    {
        match self.inner.get_key_value(store, key) {
            Some((k, _)) => Some(k),
            None => None,
        }
    }

    /// The entry with the key `key`, if there is one.
    pub fn get_key_value<'a, S: SlabView<Node<K, V>>>(&self, store: &'a S, key: &K) -> (entry: Option<
        (&'a K, &'a V),
    >)
        where
            K: 'a,
        requires
            self.wf(store),
        ensures
            entry == (if self@.dom().contains(*key) {
                Some((key, &self@[*key]))
            } else {
                None::<(&K, &V)>
            }),
    {
        self.inner.get_key_value(store, key)
    }

    /// The entry with the least key; `None` if the map is empty.
    pub fn first_key_value<'a, S: SlabView<Node<K, V>>>(&self, store: &'a S) -> (entry: Option<
        (&'a K, &'a V),
    >)
        where
            K: 'a,
        requires
            self.wf(store),
        ensures
            entry.is_none() <==> self@.dom().len() == 0,
            entry.is_some() ==> self@.contains_pair(*entry.unwrap().0, *entry.unwrap().1) && is_prev(
                self@,
                *entry.unwrap().0,
                None,
            ),
    {
        self.inner.first_key_value(store)
    }

    /// The entry with the greatest key; `None` if the map is empty.
    pub fn last_key_value<'a, S: SlabView<Node<K, V>>>(&self, store: &'a S) -> (entry: Option<
        (&'a K, &'a V),
    >)
        where
            K: 'a,
        requires
            self.wf(store),
        ensures
            entry.is_none() <==> self@.dom().len() == 0,
            entry.is_some() ==> self@.contains_pair(*entry.unwrap().0, *entry.unwrap().1) && is_next(
                self@,
                *entry.unwrap().0,
                None,
            ),
    {
        self.inner.last_key_value(store)
    }

    /// An iterator over the entries of the map in key order.
    pub fn iter<'a, S: SlabView<Node<K, V>>>(&'a self, store: &'a S) -> (iter: Iter<'a, K, V, S>)
        requires
            self.wf(store),
        ensures
            iter.wf(),
            iter.map()@ == self@,
            iter.store() == store,
            iter.remaining() == self@.dom(),
            iter.back().is_none(),
    {
        self.inner.iter(store)
    }

    /// An iterator over the keys of the map in order.
    pub fn keys<'a, S: SlabView<Node<K, V>>>(&'a self, store: &'a S) -> (keys: crate::iter::Keys<'a, K, V, S>)
        requires
            self.wf(store),
        ensures
            keys.entries().wf(),
            keys.entries().map()@ == self@,
            keys.entries().remaining() == self@.dom(),
    {
        self.inner.keys(store)
    }

    /// An iterator over the values of the map in the order of their keys.
    pub fn values<'a, S: SlabView<Node<K, V>>>(&'a self, store: &'a S) -> (values: crate::iter::Values<
        'a,
        K,
        V,
        S,
    >)
        requires
            self.wf(store),
        ensures
            values.entries().wf(),
            values.entries().map()@ == self@,
            values.entries().remaining() == self@.dom(),
    {
        self.inner.values(store)
    }

    /// Checks the whole map, node by node from the root. Returns whether all
    /// checks pass, which they do in a map that is well formed.
    pub fn validate<S: SlabView<Node<K, V>>>(&self, store: &S) -> (r: bool)
        requires
            total_order::<K>(),
            store.wf(),
        ensures
            r <==> crate::validate::valid_tree(store.cells(), self.thawed().root()),
            self.wf(store) ==> r,
    {
        self.inner.validate(store)
    }

    /// The entries of the map in key order.
    pub fn to_vec<'a, S: SlabView<Node<K, V>>>(&'a self, store: &'a S) -> (entries: Vec<(&'a K, &'a V)>)
        requires
            self.wf(store),
        ensures
            entries@.len() == self@.dom().len(),
            forall|i: int|
                0 <= i < entries@.len() ==> self@.contains_pair(
                    *(#[trigger] entries@[i]).0,
                    *entries@[i].1,
                ),
            forall|i: int, j: int|
                0 <= i < j < entries@.len() ==> key_lt(*(#[trigger] entries@[i]).0, *(#[trigger] entries@[j]).0),
            forall|k: K|
                self@.dom().contains(k) ==> exists|i: int|
                    0 <= i < entries@.len() && *(#[trigger] entries@[i]).0 == k,
    {
        self.inner.to_vec(store)
    }

    /// An iterator over the entries of the map whose keys lie between `start`
    /// and `end`, in key order.
    pub fn range<'a, S: SlabView<Node<K, V>>>(
        &'a self,
        store: &'a S,
        start: Bound<&K>,
        end: Bound<&K>,
    ) -> (range: Range<'a, K, V, S>)
        requires
            self.wf(store),
            valid_range(start, end),
        ensures
            range.wf(),
            range.store() == store,
            forall|q: K|
                range.remaining().contains(q) <==> self@.dom().contains(q) && after_start(start, q)
                    && before_end(end, q),
    {
        self.inner.range(store, start, end)
    }

    /// Marks the node `id` and all nodes below it.
    #[verifier::rlimit(50)]
    fn mark_from<S: SlabView<Node<K, V>>>(&self, store: &S, id: usize, marks: &mut Vec<bool>)
        requires
            self.wf(store),
            self.nodes().contains(id),
            forall|y: usize| self.nodes().contains(y) ==> y < old(marks)@.len(),
        ensures
            final(marks)@.len() == old(marks)@.len(),
            forall|j: int| 0 <= j < old(marks)@.len() && old(marks)@[j] ==> final(marks)@[j],
            forall|y: usize|
                descends(store.cells(), self.thawed().shape@, id, y) ==> final(marks)@[y as int],
            forall|j: int|
                0 <= j < final(marks)@.len() && final(marks)@[j] && !old(marks)@[j]
                    ==> self.nodes().contains(j as usize),
        decreases self.thawed().level_of(id),
    {
        let ghost cells = store.cells();
        let ghost g = self.inner.shape@;
        let ghost root = self.inner.root.unwrap();
        let ghost before = marks@;
        proof {
            lemma_nodes_in_cells(cells, root, g, None, None);
            assert(node_ok(cells, root, g, id));
            assert(node_fill(cells, root, None, None, id));
        }
        marks.set(id, true);
        let node = store.get(id).unwrap();
        let count = node.child_count();
        let mut i: usize = 0;
        while i < count
            invariant
                self.wf(store),
                cells == store.cells(),
                g == self.inner.shape@,
                self.inner.root == Some(root),
                g.nodes.contains(id),
                *node == cells[id],
                count == cells[id]@.children.len(),
                i <= count,
                marks@.len() == before.len(),
                marks@[id as int],
                forall|y: usize| self.nodes().contains(y) ==> y < marks@.len(),
                forall|j: int| 0 <= j < before.len() && before[j] ==> marks@[j],
                forall|j: int|
                    0 <= j < marks@.len() && marks@[j] && !before[j] ==> self.nodes().contains(j as usize),
                forall|t: int, y: usize|
                    0 <= t < i && #[trigger] descends(cells, g, cells[id]@.children[t], y)
                        ==> marks@[y as int],
            decreases count - i,
        {
            let child = node.child_id(i);
            proof {
                assert(node_ok(cells, root, g, id));
                assert(child_ok(cells, g, id, i as int));
            }
            let ghost mid = marks@;
            self.mark_from(store, child, marks);
            proof {
                assert forall|t: int, y: usize|
                    0 <= t < i + 1 && #[trigger] descends(cells, g, cells[id]@.children[t], y) implies marks@[y as int] by {
                    if t < i {
                        assert(g.nodes.contains(y));
                        assert(self.nodes().contains(y));
                        assert(0 <= (y as int) < mid.len());
                        assert(mid[y as int]);
                        assert(marks@[y as int]);
                    }
                }
            }
            i = i + 1;
        }
        proof {
            assert forall|y: usize| descends(cells, g, id, y) implies marks@[y as int] by {
                if y != id {
                    lemma_descends_child(cells, root, g, id, y);
                    let t = choose|t: int|
                        0 <= t < cells[id]@.children.len() && #[trigger] descends(
                            cells,
                            g,
                            cells[id]@.children[t],
                            y,
                        );
                    assert(descends(cells, g, cells[id]@.children[t], y));
                }
            }
        }
    }

    /// Marks all nodes of the map.
    pub(crate) fn mark_nodes<S: SlabView<Node<K, V>>>(&self, store: &S, marks: &mut Vec<bool>)
        requires
            self.wf(store),
            forall|y: usize| self.nodes().contains(y) ==> y < old(marks)@.len(),
        ensures
            final(marks)@.len() == old(marks)@.len(),
            forall|j: int| 0 <= j < old(marks)@.len() && old(marks)@[j] ==> final(marks)@[j],
            forall|y: usize| self.nodes().contains(y) ==> final(marks)@[y as int],
            forall|j: int|
                0 <= j < final(marks)@.len() && final(marks)@[j] && !old(marks)@[j]
                    ==> self.nodes().contains(j as usize),
    {
        match self.inner.root_id() {
            Some(root) => {
                self.mark_from(store, root, marks);
                proof {
                    assert forall|y: usize| self.nodes().contains(y) implies marks@[y as int] by {
                        lemma_descends_root(store.cells(), root, self.inner.shape@, y);
                    }
                }
            },
            None => {},
        }
    }
}

/// The cell `id` is a node of one of the maps `roots`.
pub open spec fn reached<K: Ord, V>(roots: Seq<BTreeMap<K, V>>, id: usize) -> bool {
    exists|i: int| 0 <= i < roots.len() && (#[trigger] roots[i]).nodes().contains(id)
}

/// Vacates every cell of `store` that is not a node of one of the frozen maps
/// `roots`. The cells of those maps stay as they are. The maps of `roots`
/// must be all the maps whose nodes are to stay: the nodes of any other map
/// in the slab are lost.
#[verifier::rlimit(50)]
pub fn tracing_gc<K: Ord, V>(store: &mut Store<Node<K, V>>, roots: &Vec<BTreeMap<K, V>>)
    requires
        old(store).wf(),
        forall|i: int| 0 <= i < roots@.len() ==> (#[trigger] roots@[i]).wf(old(store)),
    ensures
        final(store).wf(),
        forall|id: usize|
            #![trigger final(store).cells().dom().contains(id)]
            #![trigger reached(roots@, id)]
            final(store).cells().dom().contains(id) <==> old(store).cells().dom().contains(id)
                && reached(roots@, id),
        forall|id: usize| #[trigger]
            final(store).cells().dom().contains(id) ==> final(store).cells()[id] == old(
                store,
            ).cells()[id],
        forall|i: int| 0 <= i < roots@.len() ==> (#[trigger] roots@[i]).wf(final(store)),
{
    let ghost c0 = store.cells();
    let capacity = store.capacity();
    let mut marks: Vec<bool> = Vec::new();
    let mut n: usize = 0;
    while n < capacity
        invariant
            n <= capacity,
            marks@.len() == n,
            forall|j: int| 0 <= j < n ==> !marks@[j],
        decreases capacity - n,
    {
        marks.push(false);
        n = n + 1;
    }
    let mut r: usize = 0;
    while r < roots.len()
        invariant
            r <= roots.len(),
            store.wf(),
            store.cells() == c0,
            capacity == marks@.len(),
            forall|id: usize| c0.dom().contains(id) ==> id < capacity,
            forall|i: int| 0 <= i < roots@.len() ==> (#[trigger] roots@[i]).wf(store),
            forall|i: int, id: usize|
                #![trigger roots@[i].nodes().contains(id)]
                0 <= i < r && roots@[i].nodes().contains(id) ==> marks@[id as int],
            forall|j: int|
                0 <= j < marks@.len() && marks@[j] ==> exists|i: int|
                    0 <= i < r && (#[trigger] roots@[i]).nodes().contains(j as usize),
        decreases roots.len() - r,
    {
        let ghost before = marks@;
        proof {
            assert(roots@[r as int].wf(store));
            roots@[r as int].thawed().lemma_nodes_occupied(c0);
        }
        roots[r].mark_nodes(&*store, &mut marks);
        proof {
            assert forall|j: int| 0 <= j < marks@.len() && marks@[j] implies exists|i: int|
                0 <= i < r + 1 && (#[trigger] roots@[i]).nodes().contains(j as usize) by {
                if before[j] {
                    let i = choose|i: int| 0 <= i < r && (#[trigger] roots@[i]).nodes().contains(j as usize);
                    assert(roots@[i].nodes().contains(j as usize));
                } else {
                    assert(roots@[r as int].nodes().contains(j as usize));
                }
            }
        }
        r = r + 1;
    }
    let mut id: usize = 0;
    while id < capacity
        invariant
            id <= capacity,
            store.wf(),
            capacity == marks@.len(),
            forall|y: usize| c0.dom().contains(y) ==> y < capacity,
            forall|y: usize|
                #![trigger store.cells().dom().contains(y)]
                #![trigger c0.dom().contains(y)]
                store.cells().dom().contains(y) <==> c0.dom().contains(y) && (y >= id || marks@[y as int]),
            forall|y: usize| #[trigger] store.cells().dom().contains(y) ==> store.cells()[y] == c0[y],
        decreases capacity - id,
    {
        let ghost before = store.cells();
        if !marks[id] {
            store.remove(id);
        }
        proof {
            let after = store.cells();
            assert forall|y: usize|
                #![trigger after.dom().contains(y)]
                #![trigger c0.dom().contains(y)]
                after.dom().contains(y) <==> c0.dom().contains(y) && (y >= id + 1 || marks@[y as int]) by {
                assert(before.dom().contains(y) <==> c0.dom().contains(y) && (y >= id || marks@[y as int]));
            }
            assert forall|y: usize| #[trigger] after.dom().contains(y) implies after[y] == c0[y] by {
                assert(before.dom().contains(y));
            }
        }
        id = id + 1;
    }
    proof {
        let c1 = store.cells();
        assert forall|y: usize| c1.dom().contains(y) <==> c0.dom().contains(y) && reached(roots@, y) by {
            if c0.dom().contains(y) {
                if marks@[y as int] {
                    let i = choose|i: int| 0 <= i < roots@.len() && (#[trigger] roots@[i]).nodes().contains(y);
                    assert(reached(roots@, y));
                }
                if reached(roots@, y) {
                    let i = choose|i: int| 0 <= i < roots@.len() && (#[trigger] roots@[i]).nodes().contains(y);
                    assert(roots@[i].nodes().contains(y));
                }
            }
        }
        assert forall|i: int| 0 <= i < roots@.len() implies (#[trigger] roots@[i]).wf(store) by {
            let map = roots@[i].thawed();
            map.lemma_nodes_occupied(c0);
            if map.root().is_some() {
                assert forall|y: usize| map.nodes().contains(y) implies c1.dom().contains(y) && c1[y]
                    == c0[y] by {
                    assert(roots@[i].nodes().contains(y));
                    assert(reached(roots@, y));
                }
                map.lemma_kept(c0, c1);
            } else {
                map.lemma_kept(c0, c1);
            }
        }
    }
}

} // verus!
