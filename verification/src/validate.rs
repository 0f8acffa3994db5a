//! Checking a map: going through the tree from the root and looking at
//! every node.

use vstd::prelude::*;
use crate::map::BTreeMap;
use crate::node::Node;
use crate::order::{key_lt, lemma_order_laws};
use crate::slab::SlabView;
use crate::order::total_order;
use crate::tree::{
    child_at, child_hi, child_lo, child_ok, in_range, lemma_nodes_in_cells, node_fill, node_ok, Cells,
};

verus! {

/// The height `level`, as far as a number can hold it.
pub open spec fn capped(level: nat) -> usize {
    if level >= usize::MAX {
        usize::MAX
    } else {
        level as usize
    }
}

/// The key behind a reference, if there is one.
pub open spec fn key_of<K>(key: Option<&K>) -> Option<K> {
    match key {
        Some(k) => Some(*k),
        None => None,
    }
}

/// The cells from `id` downwards form a B-tree with `depth` levels below
/// `id`: the node `id` is an occupied cell in order by itself, with the
/// parent `parent` and keys strictly between `lo` and `hi`; a leaf has no
/// level below it; each child of an internal node names the node as its
/// parent, holds keys between the items around it, and has one level less
/// below it than the node.
pub open spec fn valid_below<K: Ord, V>(
    cells: Cells<K, V>,
    id: usize,
    parent: Option<usize>,
    lo: Option<K>,
    hi: Option<K>,
    depth: nat,
) -> bool
    decreases depth,
{
    &&& cells.dom().contains(id)
    &&& cells[id]@.shaped()
    &&& cells[id]@.valid(parent, lo, hi)
    &&& if cells[id]@.is_leaf() {
        depth == 0
    } else if depth == 0 {
        false
    } else {
        forall|i: int|
            #![trigger cells[id]@.children[i]]
            0 <= i < cells[id]@.children.len() ==> valid_below(
                cells,
                cells[id]@.children[i],
                Some(id),
                child_lo(cells[id]@.items, lo, i),
                child_hi(cells[id]@.items, hi, i),
                (depth - 1) as nat,
            )
    }
}

/// The cells from the root downwards form a B-tree of a height that a
/// machine number can hold. A tree without a root is in order.
pub open spec fn valid_tree<K: Ord, V>(cells: Cells<K, V>, root: Option<usize>) -> bool {
    match root {
        Some(id) => exists|d: nat| d < usize::MAX && #[trigger] valid_below(cells, id, None, None, None, d),
        None => true,
    }
}

/// The number of levels below a node is one number.
pub proof fn lemma_depth_unique<K: Ord, V>(
    cells: Cells<K, V>,
    id: usize,
    p1: Option<usize>,
    lo1: Option<K>,
    hi1: Option<K>,
    d1: nat,
    p2: Option<usize>,
    lo2: Option<K>,
    hi2: Option<K>,
    d2: nat,
)
    requires
        valid_below(cells, id, p1, lo1, hi1, d1),
        valid_below(cells, id, p2, lo2, hi2, d2),
    ensures
        d1 == d2,
    decreases d1,
{
    let view = cells[id]@;
    if !view.is_leaf() {
        let child = view.children[0];
        assert(view.children.len() > 0);
        assert(d1 > 0);
        assert(valid_below(
            cells,
            child,
            Some(id),
            child_lo(view.items, lo1, 0),
            child_hi(view.items, hi1, 0),
            (d1 - 1) as nat,
        ));
        assert(valid_below(
            cells,
            child,
            Some(id),
            child_lo(view.items, lo2, 0),
            child_hi(view.items, hi2, 0),
            (d2 - 1) as nat,
        ));
        lemma_depth_unique(
            cells,
            child,
            Some(id),
            child_lo(view.items, lo1, 0),
            child_hi(view.items, hi1, 0),
            (d1 - 1) as nat,
            Some(id),
            child_lo(view.items, lo2, 0),
            child_hi(view.items, hi2, 0),
            (d2 - 1) as nat,
        );
    }
}

/// Checks the node `id` and all nodes below it, as far as `fuel` levels
/// down. Returns the number of levels below `id`; `None` where a check
/// fails or the tree goes deeper.
fn validate_down<K: Ord, V, S: SlabView<Node<K, V>>>(
    store: &S,
    id: usize,
    parent: Option<usize>,
    min: Option<&K>,
    max: Option<&K>,
    fuel: usize,
) -> (depth: Option<usize>)
    requires
        total_order::<K>(),
        store.wf(),
    ensures
        match depth {
            Some(d) => d < fuel && valid_below(store.cells(), id, parent, key_of(min), key_of(max), d as nat),
            None => forall|d: nat|
                d < fuel ==> !#[trigger] valid_below(store.cells(), id, parent, key_of(min), key_of(max), d),
        },
    decreases fuel,
{
    let ghost cells = store.cells();
    let ghost lo = key_of(min);
    let ghost hi = key_of(max);
    if fuel == 0 {
        return None;
    }
    let node = match store.get(id) {
        Some(node) => node,
        None => {
            return None;
        },
    };
    proof {
        node.lemma_shaped();
    }
    if !node.validate(parent, min, max) {
        return None;
    }
    let count = node.child_count();
    if count == 0 {
        return Some(0);
    }
    let ghost view = cells[id]@;
    let mut below: Option<usize> = None;
    let mut i: usize = 0;
    while i < count
        invariant
            total_order::<K>(),
            store.wf(),
            cells == store.cells(),
            *node == cells[id],
            view == cells[id]@,
            lo == key_of(min),
            hi == key_of(max),
            cells.dom().contains(id),
            view.shaped(),
            view.valid(parent, lo, hi),
            count == view.children.len(),
            count > 0,
            fuel > 0,
            i <= count,
            i == 0 <==> below.is_none(),
            below.is_some() ==> below.unwrap() < fuel - 1,
            forall|j: int|
                #![trigger view.children[j]]
                0 <= j < i ==> valid_below(
                    cells,
                    view.children[j],
                    Some(id),
                    child_lo(view.items, lo, j),
                    child_hi(view.items, hi, j),
                    below.unwrap() as nat,
                ),
        decreases count - i,
    {
        let child_id = node.child_id(i);
        let (child_min, child_max) = node.separators(i);
        let lower = match child_min {
            Some(k) => Some(k),
            None => min,
        };
        let upper = match child_max {
            Some(k) => Some(k),
            None => max,
        };
        assert(key_of(lower) == child_lo(view.items, lo, i as int));
        assert(key_of(upper) == child_hi(view.items, hi, i as int));
        let found = validate_down(store, child_id, Some(id), lower, upper, fuel - 1);
        match found {
            None => {
                proof {
                    assert forall|d: nat| d < fuel implies !#[trigger] valid_below(
                        cells,
                        id,
                        parent,
                        lo,
                        hi,
                        d,
                    ) by {
                        if valid_below(cells, id, parent, lo, hi, d) {
                            assert(valid_below(
                                cells,
                                view.children[i as int],
                                Some(id),
                                child_lo(view.items, lo, i as int),
                                child_hi(view.items, hi, i as int),
                                (d - 1) as nat,
                            ));
                        }
                    }
                }
                return None;
            },
            Some(d) => {
                match below {
                    None => {
                        below = Some(d);
                    },
                    Some(seen) => {
                        if seen != d {
                            proof {
                                assert forall|e: nat| e < fuel implies !#[trigger] valid_below(
                                    cells,
                                    id,
                                    parent,
                                    lo,
                                    hi,
                                    e,
                                ) by {
                                    if valid_below(cells, id, parent, lo, hi, e) {
                                        assert(valid_below(
                                            cells,
                                            view.children[i as int],
                                            Some(id),
                                            child_lo(view.items, lo, i as int),
                                            child_hi(view.items, hi, i as int),
                                            (e - 1) as nat,
                                        ));
                                        assert(valid_below(
                                            cells,
                                            view.children[0],
                                            Some(id),
                                            child_lo(view.items, lo, 0),
                                            child_hi(view.items, hi, 0),
                                            (e - 1) as nat,
                                        ));
                                        lemma_depth_unique(
                                            cells,
                                            view.children[i as int],
                                            Some(id),
                                            child_lo(view.items, lo, i as int),
                                            child_hi(view.items, hi, i as int),
                                            (e - 1) as nat,
                                            Some(id),
                                            child_lo(view.items, lo, i as int),
                                            child_hi(view.items, hi, i as int),
                                            d as nat,
                                        );
                                        lemma_depth_unique(
                                            cells,
                                            view.children[0],
                                            Some(id),
                                            child_lo(view.items, lo, 0),
                                            child_hi(view.items, hi, 0),
                                            (e - 1) as nat,
                                            Some(id),
                                            child_lo(view.items, lo, 0),
                                            child_hi(view.items, hi, 0),
                                            seen as nat,
                                        );
                                    }
                                }
                            }
                            return None;
                        }
                    },
                }
            },
        }
        i = i + 1;
    }
    let d = below.unwrap();
    Some(d + 1)
}

impl<K: Ord, V> BTreeMap<K, V> {
    /// What a map that is well formed holds of each of its nodes: the node
    /// is an occupied cell; it holds no more than `M - 1` items and, unless
    /// it is the root, no fewer than `MIN_ITEMS`, the root one at least; its
    /// keys are strictly increasing and lie strictly inside the interval of
    /// the node; it is a leaf exactly if it stands at height 0; the root has
    /// no parent; each child is a node of the map one level below that names
    /// the node as its parent, and the interval of the child is the gap
    /// between the items around it.
    pub proof fn lemma_structure(&self, cells: Cells<K, V>, id: usize)
        requires
            self.inv(cells),
            self.nodes().contains(id),
        ensures
            cells.dom().contains(id),
            self.root().is_some(),
            cells[id]@.valid(
                cells[id]@.parent,
                self.key_before(cells, id, 0),
                self.key_at(cells, id, cells[id]@.items.len() as int),
            ),
            id == self.root().unwrap() ==> cells[id]@.parent.is_none() && self.key_before(
                cells,
                id,
                0,
            ).is_none() && self.key_at(cells, id, cells[id]@.items.len() as int).is_none(),
            id != self.root().unwrap() ==> cells[id]@.parent.is_some() && self.nodes().contains(
                cells[id]@.parent.unwrap(),
            ) && cells[cells[id]@.parent.unwrap()]@.children.contains(id),
            cells[id]@.shaped(),
            cells[id]@.is_leaf() <==> self.level_of(id) == 0,
            forall|i: int|
                0 <= i < cells[id]@.children.len() ==> {
                    let child = #[trigger] cells[id]@.children[i];
                    &&& self.nodes().contains(child)
                    &&& cells[child]@.parent == Some(id)
                    &&& self.level_of(child) + 1 == self.level_of(id)
                    &&& self.key_before(cells, child, 0) == self.key_before(cells, id, i)
                    &&& self.key_at(cells, child, cells[child]@.items.len() as int) == self.key_at(
                        cells,
                        id,
                        i,
                    )
                },
    {
        let root = self.root.unwrap();
        let g = self.shape@;
        assert(node_ok(cells, root, g, id));
        assert(node_fill(cells, root, None, None, id));
        assert(forall|a: int|
            0 <= a < cells[id]@.items.len() ==> in_range(g, id, (#[trigger] cells[id]@.items[a]).key));
        if id != root {
            let p = cells[id]@.parent.unwrap();
            let slot = choose|i: int| child_at(cells, p, i, id);
            assert(child_at(cells, p, slot, id));
            assert(cells[p]@.children[slot] == id);
            assert(node_ok(cells, root, g, p));
            assert(node_fill(cells, root, None, None, p));
            assert(child_ok(cells, g, p, slot));
        }
        assert forall|i: int| 0 <= i < cells[id]@.children.len() implies {
            let child = #[trigger] cells[id]@.children[i];
            &&& self.nodes().contains(child)
            &&& cells[child]@.parent == Some(id)
            &&& self.level_of(child) + 1 == self.level_of(id)
            &&& self.key_before(cells, child, 0) == self.key_before(cells, id, i)
            &&& self.key_at(cells, child, cells[child]@.items.len() as int) == self.key_at(cells, id, i)
        } by {
            assert(child_ok(cells, g, id, i));
        }
    }

    /// Along the first children from the node `id` down to a leaf the first
    /// keys of the nodes are all different: the map has more keys than the
    /// node has levels below it.
    proof fn lemma_spine(&self, cells: Cells<K, V>, id: usize) -> (keys: Set<K>)
        requires
            total_order::<K>(),
            self.inv(cells),
            self.nodes().contains(id),
        ensures
            keys.finite(),
            keys.len() == self.level_of(id) + 1,
            keys.subset_of(self@.dom()),
            forall|k: K| keys.contains(k) ==> !key_lt(cells[id]@.items[0].key, k),
        decreases self.level_of(id),
    {
        lemma_order_laws::<K>();
        let g = self.shape@;
        let root = self.root.unwrap();
        self.lemma_structure(cells, id);
        assert(node_ok(cells, root, g, id));
        assert(node_fill(cells, root, None, None, id));
        let view = cells[id]@;
        let first = view.items[0];
        assert(self.model@.contains_pair(crate::tree::item_at(cells, id, 0).key, first.value));
        if view.is_leaf() {
            let keys = set![first.key];
            assert(keys.len() == 1);
            keys
        } else {
            let child = view.children[0];
            assert(child_ok(cells, g, id, 0));
            let below = self.lemma_spine(cells, child);
            assert(node_ok(cells, root, g, child));
            assert(node_fill(cells, root, None, None, child));
            assert(in_range(g, child, cells[child]@.items[0].key));
            assert(key_lt(cells[child]@.items[0].key, first.key));
            assert(!below.contains(first.key));
            below.insert(first.key)
        }
    }

    /// The height of a map that is well formed is less than the number of
    /// its entries, which a machine number holds.
    pub proof fn lemma_height_bound(&self, cells: Cells<K, V>)
        requires
            total_order::<K>(),
            self.counted(),
            self.inv(cells),
        ensures
            self.root().is_some() ==> self.level_of(self.root().unwrap()) < self@.dom().len()
                <= usize::MAX,
    {
        if self.root.is_some() {
            let root = self.root.unwrap();
            assert(node_ok(cells, root, self.shape@, root));
            let keys = self.lemma_spine(cells, root);
            vstd::set_lib::lemma_len_subset(keys, self@.dom());
        }
    }

    /// The nodes of a map that is well formed, from `id` downwards, form a
    /// B-tree of as many levels below `id` as the level of `id` says.
    pub proof fn lemma_valid_below(&self, cells: Cells<K, V>, id: usize)
        requires
            total_order::<K>(),
            self.inv(cells),
            self.nodes().contains(id),
        ensures
            valid_below(
                cells,
                id,
                cells[id]@.parent,
                self.key_before(cells, id, 0),
                self.key_at(cells, id, cells[id]@.items.len() as int),
                self.level_of(id),
            ),
        decreases self.level_of(id),
    {
        let g = self.shape@;
        let root = self.root.unwrap();
        self.lemma_structure(cells, id);
        assert(node_ok(cells, root, g, id));
        let view = cells[id]@;
        if !view.is_leaf() {
            assert forall|i: int|
                #![trigger view.children[i]]
                0 <= i < view.children.len() implies valid_below(
                cells,
                view.children[i],
                Some(id),
                child_lo(view.items, g.lo[id], i),
                child_hi(view.items, g.hi[id], i),
                (g.level[id] - 1) as nat,
            ) by {
                assert(child_ok(cells, g, id, i));
                self.lemma_valid_below(cells, view.children[i]);
            }
        }
    }

    /// Checks the node `id` and all nodes below it: that each is an occupied
    /// cell in order by itself, names the node above it as its parent, holds
    /// keys between the items around it in that node, and that all leaves
    /// are equally far below `id`. `parent`, `min` and `max` are what the
    /// node `id` itself is held against. Returns the number of levels below
    /// `id`; `None` where a check fails.
    pub fn validate_node<S: SlabView<Node<K, V>>>(
        &self,
        store: &S,
        id: usize,
        parent: Option<usize>,
        min: Option<&K>,
        max: Option<&K>,
    ) -> (depth: Option<usize>)
        requires
            total_order::<K>(),
            store.wf(),
        ensures
            match depth {
                Some(d) => d < usize::MAX && valid_below(
                    store.cells(),
                    id,
                    parent,
                    key_of(min),
                    key_of(max),
                    d as nat,
                ),
                None => forall|d: nat|
                    d < usize::MAX ==> !#[trigger] valid_below(
                        store.cells(),
                        id,
                        parent,
                        key_of(min),
                        key_of(max),
                        d,
                    ),
            },
    {
        validate_down(store, id, parent, min, max, usize::MAX)
    }

    /// The number of levels of the tree: none for an empty map, one for a map
    /// whose root is a leaf.
    #[verifier::loop_isolation(false)]
    pub fn height<S: SlabView<Node<K, V>>>(&self, store: &S) -> (h: usize)
        requires
            self.wf(store),
        ensures
            h == (match self.root() {
                Some(root) => capped(self.level_of(root) + 1),
                None => 0,
            }),
    {
        let root = match self.root {
            Some(root) => root,
            None => {
                return 0;
            },
        };
        let ghost cells = store.cells();
        let ghost g = self.shape@;
        let mut cur = root;
        let mut h: usize = 1;
        loop
            invariant
                g.nodes.contains(cur),
                g.level[cur] <= g.level[root],
                h == capped((g.level[root] - g.level[cur] + 1) as nat),
            decreases g.level[cur],
        {
            proof {
                lemma_nodes_in_cells(cells, root, g, None, None);
                assert(node_ok(cells, root, g, cur));
            }
            match store.get(cur).unwrap().child_id_opt(0) {
                Some(child) => {
                    proof {
                        assert(child_ok(cells, g, cur, 0));
                    }
                    cur = child;
                    if h < usize::MAX {
                        h = h + 1;
                    }
                },
                None => {
                    return h;
                },
            }
        }
    }

    /// Checks the whole map, node by node from the root: that every node is
    /// an occupied cell whose number of items is within bounds, that the
    /// keys are in order and between the items around the node in the node
    /// above, that every node names the node above it as its parent, and
    /// that all leaves are equally far from the root. Returns whether all
    /// checks pass, which they do in a map that is well formed.
    pub fn validate<S: SlabView<Node<K, V>>>(&self, store: &S) -> (r: bool)
        requires
            total_order::<K>(),
            store.wf(),
        ensures
            r <==> valid_tree(store.cells(), self.root()),
            self.wf(store) ==> r,
    {
        match self.root {
            Some(id) => {
                proof {
                    if self.wf(store) {
                        self.lemma_valid_below(store.cells(), id);
                        self.lemma_structure(store.cells(), id);
                        self.lemma_height_bound(store.cells());
                    }
                }
                self.validate_node(store, id, None, None, None).is_some()
            },
            None => true,
        }
    }
}

} // verus!
