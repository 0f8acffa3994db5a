//! What it means for the nodes of an arena to form a B-tree, and the facts
//! that follow from it.

use vstd::prelude::*;
use crate::node::{sorted, Item, Node, M, MIN_ITEMS};
use crate::order::{above, below, between, key_lt, lemma_order_laws, total_order};

verus! {

/// The cells of an arena of nodes, by index.
pub type Cells<K, V> = Map<usize, Node<K, V>>;

/// The shape of one tree in an arena: which cells are its nodes, the open
/// interval of keys that each node may hold, and the height of each node
/// above the leaves.
#[verifier::reject_recursive_types(K)]
pub struct Shape<K> {
    pub nodes: Set<usize>,
    pub lo: Map<usize, Option<K>>,
    pub hi: Map<usize, Option<K>>,
    pub level: Map<usize, nat>,
}

/// The item at `offset` of the node `id`.
pub open spec fn item_at<K, V>(cells: Cells<K, V>, id: usize, offset: int) -> Item<K, V> {
    cells[id]@.items[offset]
}

/// `k` lies strictly inside the interval of the node `id`.
pub open spec fn in_range<K: Ord>(g: Shape<K>, id: usize, k: K) -> bool {
    between(g.lo[id], k, g.hi[id])
}

/// The node `id` by itself: its items are sorted and lie inside its interval,
/// and it is a leaf exactly at level 0.
pub open spec fn node_local<K: Ord, V>(cells: Cells<K, V>, g: Shape<K>, id: usize) -> bool {
    let n = cells[id]@;
    &&& cells.dom().contains(id)
    &&& id != usize::MAX
    &&& n.shaped()
    &&& sorted(n.items)
    &&& (forall|i: int| 0 <= i < n.items.len() ==> in_range(g, id, (#[trigger] n.items[i]).key))
    &&& (n.is_leaf() <==> g.level[id] == 0)
}

/// The lower bound of the `i`-th child of a node with these items.
pub open spec fn child_lo<K, V>(items: Seq<Item<K, V>>, lo: Option<K>, i: int) -> Option<K> {
    if i == 0 {
        lo
    } else {
        Some(items[i - 1].key)
    }
}

/// The upper bound of the `i`-th child of a node with these items.
pub open spec fn child_hi<K, V>(items: Seq<Item<K, V>>, hi: Option<K>, i: int) -> Option<K> {
    if i == items.len() {
        hi
    } else {
        Some(items[i].key)
    }
}

/// The `i`-th child of the node `id` is a node of the tree one level below,
/// names `id` as its parent, and its interval is the gap between the items
/// around it.
pub open spec fn child_ok<K: Ord, V>(cells: Cells<K, V>, g: Shape<K>, id: usize, i: int) -> bool {
    let n = cells[id]@;
    let c = n.children[i];
    &&& g.nodes.contains(c)
    &&& cells[c]@.parent == Some(id)
    &&& g.level[c] + 1 == g.level[id]
    &&& g.lo[c] == child_lo(n.items, g.lo[id], i)
    &&& g.hi[c] == child_hi(n.items, g.hi[id], i)
}

/// Every child of the node `id` is in order.
pub open spec fn node_children<K: Ord, V>(cells: Cells<K, V>, g: Shape<K>, id: usize) -> bool {
    forall|i: int| 0 <= i < cells[id]@.children.len() ==> #[trigger] child_ok(cells, g, id, i)
}

/// `id` is the `i`-th child of the node `p`.
pub open spec fn child_at<K, V>(cells: Cells<K, V>, p: usize, i: int, id: usize) -> bool {
    0 <= i < cells[p]@.children.len() && cells[p]@.children[i] == id
}

/// The node `id` seen from above: the root has no parent and an unbounded
/// interval; any other node is a child of the node it names as its parent.
pub open spec fn node_up<K: Ord, V>(cells: Cells<K, V>, root: usize, g: Shape<K>, id: usize) -> bool {
    &&& g.level[id] <= g.level[root]
    &&& if id == root {
        cells[id]@.parent.is_none() && g.lo[id].is_none() && g.hi[id].is_none()
    } else {
        &&& cells[id]@.parent.is_some()
        &&& g.nodes.contains(cells[id]@.parent.unwrap())
        &&& exists|i: int| #[trigger] child_at(cells, cells[id]@.parent.unwrap(), i, id)
    }
}

/// The number of items of the node `id` is within bounds. The node `over`
/// may hold one item too many, the node `under` one too few.
pub open spec fn node_fill<K, V>(
    cells: Cells<K, V>,
    root: usize,
    over: Option<usize>,
    under: Option<usize>,
    id: usize,
) -> bool {
    let len = cells[id]@.items.len();
    &&& len <= (if over == Some(id) {
        M as int
    } else {
        M - 1
    })
    &&& len >= (if id == root {
        if under == Some(id) {
            0int
        } else {
            1int
        }
    } else {
        if under == Some(id) {
            MIN_ITEMS - 1
        } else {
            MIN_ITEMS as int
        }
    })
}

/// All that is asked of one node but the number of its items.
pub open spec fn node_ok<K: Ord, V>(cells: Cells<K, V>, root: usize, g: Shape<K>, id: usize) -> bool {
    &&& node_local(cells, g, id)
    &&& node_children(cells, g, id)
    &&& node_up(cells, root, g, id)
}

/// The nodes of `g` form a B-tree with root `root`, but that the node `over`
/// may hold one item too many and the node `under` one too few.
pub open spec fn tree_ok<K: Ord, V>(
    cells: Cells<K, V>,
    root: usize,
    g: Shape<K>,
    over: Option<usize>,
    under: Option<usize>,
) -> bool {
    &&& g.nodes.contains(root)
    &&& forall|id: usize| #[trigger]
        g.nodes.contains(id) ==> node_ok(cells, root, g, id) && node_fill(cells, root, over, under, id)
}

/// The item at `offset` of the node `id` of the tree has the key `k`.
pub open spec fn holds<K, V>(cells: Cells<K, V>, g: Shape<K>, id: usize, offset: int, k: K) -> bool {
    &&& g.nodes.contains(id)
    &&& 0 <= offset < cells[id]@.items.len()
    &&& item_at(cells, id, offset).key == k
}

/// The items of the tree are the pairs of `model`.
pub open spec fn model_ok<K, V>(cells: Cells<K, V>, g: Shape<K>, model: Map<K, V>) -> bool {
    &&& model.dom().finite()
    &&& forall|id: usize, i: int|
        g.nodes.contains(id) && 0 <= i < cells[id]@.items.len() ==> model.contains_pair(
            (#[trigger] item_at(cells, id, i)).key,
            item_at(cells, id, i).value,
        )
    &&& forall|k: K| #[trigger]
        model.dom().contains(k) ==> exists|id: usize, i: int| #[trigger] holds(cells, g, id, i, k)
}

/// The ancestor of `x` that stands `n` levels above it.
pub open spec fn ancestor<K, V>(cells: Cells<K, V>, x: usize, n: nat) -> usize
    decreases n,
{
    if n == 0 {
        x
    } else {
        cells[ancestor(cells, x, (n - 1) as nat)]@.parent.unwrap()
    }
}

/// A node that is not the root has a parent one level above whose interval
/// includes its own.
pub proof fn lemma_parent<K: Ord, V>(
    cells: Cells<K, V>,
    root: usize,
    g: Shape<K>,
    over: Option<usize>,
    under: Option<usize>,
    id: usize,
    k: K,
)
    requires
        total_order::<K>(),
        tree_ok(cells, root, g, over, under),
        g.nodes.contains(id),
        id != root,
        in_range(g, id, k),
    ensures
        cells[id]@.parent.is_some(),
        g.nodes.contains(cells[id]@.parent.unwrap()),
        g.level[cells[id]@.parent.unwrap()] == g.level[id] + 1,
        g.level[id] < g.level[root],
        in_range(g, cells[id]@.parent.unwrap(), k),
{
    lemma_order_laws::<K>();
    let p = cells[id]@.parent.unwrap();
    assert(node_ok(cells, root, g, id));
    let i = choose|i: int| child_at(cells, p, i, id);
    assert(child_at(cells, p, i, id));
    assert(node_ok(cells, root, g, p));
    assert(child_ok(cells, g, p, i));
    let n = cells[p]@;
    if i > 0 {
        assert(in_range(g, p, n.items[i - 1].key));
    }
    if i < n.items.len() {
        assert(in_range(g, p, n.items[i].key));
    }
}

/// Going up from a node stays inside the tree, one level at a time, and the
/// intervals only widen.
pub proof fn lemma_ancestor<K: Ord, V>(
    cells: Cells<K, V>,
    root: usize,
    g: Shape<K>,
    over: Option<usize>,
    under: Option<usize>,
    x: usize,
    k: K,
    n: nat,
)
    requires
        total_order::<K>(),
        tree_ok(cells, root, g, over, under),
        g.nodes.contains(x),
        in_range(g, x, k),
        g.level[x] + n <= g.level[root],
    ensures
        g.nodes.contains(ancestor(cells, x, n)),
        g.level[ancestor(cells, x, n)] == g.level[x] + n,
        in_range(g, ancestor(cells, x, n), k),
    decreases n,
{
    if n > 0 {
        lemma_ancestor(cells, root, g, over, under, x, k, (n - 1) as nat);
        let y = ancestor(cells, x, (n - 1) as nat);
        if y == root {
            assert(false);
        }
        lemma_parent(cells, root, g, over, under, y, k);
    }
}

/// Two nodes on one level whose intervals share a key are the same node.
#[verifier::rlimit(50)]
pub proof fn lemma_same_level<K: Ord, V>(
    cells: Cells<K, V>,
    root: usize,
    g: Shape<K>,
    over: Option<usize>,
    under: Option<usize>,
    a: usize,
    b: usize,
    k: K,
)
    requires
        total_order::<K>(),
        tree_ok(cells, root, g, over, under),
        g.nodes.contains(a),
        g.nodes.contains(b),
        g.level[a] == g.level[b],
        in_range(g, a, k),
        in_range(g, b, k),
    ensures
        a == b,
    decreases g.level[root] - g.level[a],
{
    lemma_order_laws::<K>();
    assert(node_ok(cells, root, g, a));
    assert(node_ok(cells, root, g, b));
    if a == root || b == root {
        if a != root {
            lemma_parent(cells, root, g, over, under, a, k);
        }
        if b != root {
            lemma_parent(cells, root, g, over, under, b, k);
        }
    } else {
        lemma_parent(cells, root, g, over, under, a, k);
        lemma_parent(cells, root, g, over, under, b, k);
        let pa = cells[a]@.parent.unwrap();
        let pb = cells[b]@.parent.unwrap();
        lemma_same_level(cells, root, g, over, under, pa, pb, k);
        let i = choose|i: int| child_at(cells, pa, i, a);
        let j = choose|j: int| child_at(cells, pb, j, b);
        assert(child_at(cells, pa, i, a));
        assert(child_at(cells, pa, j, b));
        assert(node_ok(cells, root, g, pa));
        assert(child_ok(cells, g, pa, i));
        assert(child_ok(cells, g, pa, j));
        let n = cells[pa]@;
        if i < j {
            // k < items[i] <= items[j - 1] < k
            assert(key_lt(k, n.items[i].key));
            assert(key_lt(n.items[j - 1].key, k));
            if i < j - 1 {
                assert(key_lt(n.items[i].key, n.items[j - 1].key));
            }
            assert(false);
        }
        if j < i {
            assert(key_lt(k, n.items[j].key));
            assert(key_lt(n.items[i - 1].key, k));
            if j < i - 1 {
                assert(key_lt(n.items[j].key, n.items[i - 1].key));
            }
            assert(false);
        }
    }
}

/// A node whose interval contains a key stands above no node that holds the
/// key: if it is not higher than a holder, it is the holder.
#[verifier::rlimit(50)]
pub proof fn lemma_holder<K: Ord, V>(
    cells: Cells<K, V>,
    root: usize,
    g: Shape<K>,
    over: Option<usize>,
    under: Option<usize>,
    a: usize,
    m: usize,
    j: int,
    k: K,
)
    requires
        total_order::<K>(),
        tree_ok(cells, root, g, over, under),
        g.nodes.contains(a),
        in_range(g, a, k),
        holds(cells, g, m, j, k),
        g.level[a] <= g.level[m],
    ensures
        a == m,
{
    lemma_order_laws::<K>();
    assert(node_ok(cells, root, g, m));
    assert(in_range(g, m, cells[m]@.items[j].key));
    let n = (g.level[m] - g.level[a]) as nat;
    lemma_ancestor(cells, root, g, over, under, a, k, n);
    let x = ancestor(cells, a, n);
    lemma_same_level(cells, root, g, over, under, x, m, k);
    if n > 0 {
        let y = ancestor(cells, a, (n - 1) as nat);
        lemma_ancestor(cells, root, g, over, under, a, k, (n - 1) as nat);
        assert(node_ok(cells, root, g, y));
        assert(y != root);
        let i = choose|i: int| child_at(cells, m, i, y);
        assert(child_at(cells, m, i, y));
        assert(child_ok(cells, g, m, i));
        let items = cells[m]@.items;
        // k is an item of m, but lies strictly between two neighbours
        if i > 0 {
            assert(key_lt(items[i - 1].key, k));
            if j < i - 1 {
                assert(key_lt(items[j].key, items[i - 1].key));
            }
        }
        if i < items.len() {
            assert(key_lt(k, items[i].key));
            if i < j {
                assert(key_lt(items[i].key, items[j].key));
            }
        }
        assert(false);
    }
}

/// A key stands at one place of the tree at most.
pub proof fn lemma_unique<K: Ord, V>(
    cells: Cells<K, V>,
    root: usize,
    g: Shape<K>,
    over: Option<usize>,
    under: Option<usize>,
    a: usize,
    i: int,
    b: usize,
    j: int,
    k: K,
)
    requires
        total_order::<K>(),
        tree_ok(cells, root, g, over, under),
        holds(cells, g, a, i, k),
        holds(cells, g, b, j, k),
    ensures
        a == b,
        i == j,
{
    lemma_order_laws::<K>();
    assert(node_ok(cells, root, g, a));
    assert(node_ok(cells, root, g, b));
    assert(in_range(g, a, cells[a]@.items[i].key));
    assert(in_range(g, b, cells[b]@.items[j].key));
    if g.level[a] <= g.level[b] {
        lemma_holder(cells, root, g, over, under, a, b, j, k);
    } else {
        lemma_holder(cells, root, g, over, under, b, a, i, k);
    }
    if i < j {
        assert(key_lt(cells[a]@.items[i].key, cells[a]@.items[j].key));
    }
    if j < i {
        assert(key_lt(cells[a]@.items[j].key, cells[a]@.items[i].key));
    }
}

/// A leaf whose interval contains a key that it does not hold shows that no
/// node of the tree holds the key.
pub proof fn lemma_absent<K: Ord, V>(
    cells: Cells<K, V>,
    root: usize,
    g: Shape<K>,
    over: Option<usize>,
    under: Option<usize>,
    model: Map<K, V>,
    leaf: usize,
    k: K,
)
    requires
        total_order::<K>(),
        tree_ok(cells, root, g, over, under),
        model_ok(cells, g, model),
        g.nodes.contains(leaf),
        g.level[leaf] == 0,
        in_range(g, leaf, k),
        forall|i: int| 0 <= i < cells[leaf]@.items.len() ==> (#[trigger] cells[leaf]@.items[i]).key != k,
    ensures
        !model.dom().contains(k),
{
    if model.dom().contains(k) {
        let (m, j) = choose|m: usize, j: int| holds(cells, g, m, j, k);
        assert(holds(cells, g, m, j, k));
        lemma_holder(cells, root, g, over, under, leaf, m, j, k);
        assert(cells[leaf]@.items[j].key == k);
    }
}


/// How the cells of a slab change when one tree changes: the cells that were
/// not nodes of the tree stay as they are, the nodes that the tree gains were
/// vacant before, no other cell appears, and the nodes that the tree gives up
/// are vacant afterwards.
pub open spec fn evolves<K, V>(
    before: Cells<K, V>,
    after: Cells<K, V>,
    nodes_before: Set<usize>,
    nodes_after: Set<usize>,
) -> bool {
    &&& forall|id: usize|
        #![trigger after.dom().contains(id)]
        #![trigger before.dom().contains(id)]
        before.dom().contains(id) && !nodes_before.contains(id) ==> after.dom().contains(id)
            && after[id] == before[id]
    &&& forall|id: usize| #[trigger]
        nodes_after.contains(id) && before.dom().contains(id) ==> nodes_before.contains(id)
    &&& forall|id: usize| #[trigger]
        after.dom().contains(id) ==> before.dom().contains(id) || nodes_after.contains(id)
    &&& forall|id: usize|
        #![trigger after.dom().contains(id)]
        #![trigger nodes_before.contains(id)]
        nodes_before.contains(id) && !nodes_after.contains(id) ==> !after.dom().contains(id)
}

/// The children of a node of the tree are pairwise distinct.
pub proof fn lemma_children_distinct<K: Ord, V>(
    cells: Cells<K, V>,
    root: usize,
    g: Shape<K>,
    id: usize,
    i: int,
    j: int,
)
    requires
        total_order::<K>(),
        g.nodes.contains(id),
        node_ok(cells, root, g, id),
        0 <= i < j < cells[id]@.children.len(),
    ensures
        cells[id]@.children[i] != cells[id]@.children[j],
{
    lemma_order_laws::<K>();
    let n = cells[id]@;
    assert(child_ok(cells, g, id, i));
    assert(child_ok(cells, g, id, j));
    if n.children[i] == n.children[j] {
        // the upper bound of child i is below the lower bound of child j
        assert(g.hi[n.children[i]] == Some(n.items[i].key));
        assert(g.lo[n.children[j]] == Some(n.items[j - 1].key));
        let c = n.children[i];
        assert(in_range(g, id, n.items[i].key));
        if i > 0 {
            assert(g.lo[c] == Some(n.items[i - 1].key));
            if i - 1 < j - 1 {
                assert(key_lt(n.items[i - 1].key, n.items[j - 1].key));
            }
        } else {
            assert(g.lo[c] == g.lo[id]);
            assert(in_range(g, id, n.items[j - 1].key));
        }
        assert(false);
    }
}

/// `(id, offset)` is a place of the tree whose next key is `next`: either the
/// item there has that key, or the place is the end of a leaf whose interval
/// ends at that key.
pub open spec fn place_ok<K, V>(
    cells: Cells<K, V>,
    g: Shape<K>,
    id: usize,
    offset: int,
    next: Option<K>,
) -> bool {
    &&& g.nodes.contains(id)
    &&& 0 <= offset <= cells[id]@.items.len()
    &&& if offset < cells[id]@.items.len() {
        next == Some(item_at(cells, id, offset).key)
    } else {
        cells[id]@.is_leaf() && g.hi[id] == next
    }
}

/// An item that stood at the place `(id0, offset0)` in `c0` stands at the
/// place `(id1, offset1)` in `c1`.
pub open spec fn item_stays<K, V>(
    c0: Cells<K, V>,
    id0: usize,
    offset0: int,
    c1: Cells<K, V>,
    id1: usize,
    offset1: int,
) -> bool {
    0 <= offset0 < c0[id0]@.items.len() ==> 0 <= offset1 < c1[id1]@.items.len() && item_at(c1, id1, offset1)
        == item_at(c0, id0, offset0)
}

/// Every node of the tree is an occupied cell.
pub proof fn lemma_nodes_in_cells<K: Ord, V>(
    cells: Cells<K, V>,
    root: usize,
    g: Shape<K>,
    over: Option<usize>,
    under: Option<usize>,
)
    requires
        tree_ok(cells, root, g, over, under),
    ensures
        forall|y: usize| g.nodes.contains(y) ==> cells.dom().contains(y),
{
    assert forall|y: usize| g.nodes.contains(y) implies cells.dom().contains(y) by {
        assert(node_ok(cells, root, g, y));
    }
}

/// `next` is the least key of `model` that is greater than `k`; `None` says
/// that `model` has no key greater than `k`.
pub open spec fn is_next<K: Ord, V>(model: Map<K, V>, k: K, next: Option<K>) -> bool {
    match next {
        Some(s) => model.dom().contains(s) && key_lt(k, s) && forall|q: K| #[trigger]
            model.dom().contains(q) && key_lt(k, q) ==> !key_lt(q, s),
        None => forall|q: K| #[trigger] model.dom().contains(q) ==> !key_lt(k, q),
    }
}

/// The least key of `model` that is greater than `k`, if there is one.
pub open spec fn next_key<K: Ord, V>(model: Map<K, V>, k: K) -> Option<K> {
    if exists|s: K| is_next(model, k, Some(s)) {
        Some(choose|s: K| is_next(model, k, Some(s)))
    } else {
        None
    }
}

/// There is one next key at most.
pub proof fn lemma_next_unique<K: Ord, V>(model: Map<K, V>, k: K, next: Option<K>)
    requires
        total_order::<K>(),
        is_next(model, k, next),
    ensures
        next_key(model, k) == next,
{
    lemma_order_laws::<K>();
    match next {
        Some(s) => {
            let t = choose|t: K| is_next(model, k, Some(t));
            assert(is_next(model, k, Some(t)));
            assert(model.dom().contains(s) && key_lt(k, s));
            assert(model.dom().contains(t) && key_lt(k, t));
        },
        None => {
            if exists|s: K| is_next(model, k, Some(s)) {
                let t = choose|t: K| is_next(model, k, Some(t));
                assert(model.dom().contains(t));
            }
        },
    }
}

/// The end of a node's interval, if it has one, is the key of an item of the
/// tree.
pub proof fn lemma_hi_held<K: Ord, V>(
    cells: Cells<K, V>,
    root: usize,
    g: Shape<K>,
    over: Option<usize>,
    under: Option<usize>,
    id: usize,
)
    requires
        tree_ok(cells, root, g, over, under),
        g.nodes.contains(id),
        g.hi[id].is_some(),
    ensures
        exists|m: usize, j: int| #[trigger] holds(cells, g, m, j, g.hi[id].unwrap()),
    decreases g.level[root] - g.level[id],
{
    assert(node_ok(cells, root, g, id));
    let p = cells[id]@.parent.unwrap();
    let i = choose|i: int| child_at(cells, p, i, id);
    assert(child_at(cells, p, i, id));
    assert(node_ok(cells, root, g, p));
    assert(child_ok(cells, g, p, i));
    if i < cells[p]@.items.len() {
        assert(holds(cells, g, p, i, g.hi[id].unwrap()));
    } else {
        lemma_hi_held(cells, root, g, over, under, p);
        let (m, j) = choose|m: usize, j: int| holds(cells, g, m, j, g.hi[p].unwrap());
        assert(holds(cells, g, m, j, g.hi[id].unwrap()));
    }
}

/// The least key of `model`, if it has a key.
pub open spec fn first_key<K: Ord, V>(model: Map<K, V>) -> Option<K> {
    if exists|s: K| model.dom().contains(s) && is_prev(model, s, None) {
        Some(choose|s: K| model.dom().contains(s) && is_prev(model, s, None))
    } else {
        None
    }
}

/// There is one least key at most.
pub proof fn lemma_first_unique<K: Ord, V>(model: Map<K, V>, k: K)
    requires
        total_order::<K>(),
        model.dom().contains(k),
        is_prev(model, k, None),
    ensures
        first_key(model) == Some(k),
{
    lemma_order_laws::<K>();
    let t = choose|t: K| model.dom().contains(t) && is_prev(model, t, None);
    assert(model.dom().contains(t) && is_prev(model, t, None));
}

/// The key of `model` that comes after `prev`: the next greater key, or the
/// least key of all where `prev` is `None`.
pub open spec fn key_after<K: Ord, V>(model: Map<K, V>, prev: Option<K>) -> Option<K> {
    match prev {
        Some(k) => next_key(model, k),
        None => first_key(model),
    }
}

/// `prev` is the greatest key of `model` that is less than `k`; `None` says
/// that `model` has no key less than `k`.
pub open spec fn is_prev<K: Ord, V>(model: Map<K, V>, k: K, prev: Option<K>) -> bool {
    match prev {
        Some(s) => model.dom().contains(s) && key_lt(s, k) && forall|q: K| #[trigger]
            model.dom().contains(q) && key_lt(q, k) ==> !key_lt(s, q),
        None => forall|q: K| #[trigger] model.dom().contains(q) ==> !key_lt(q, k),
    }
}

/// The greatest key of `model` that is less than `k`, if there is one.
pub open spec fn prev_key<K: Ord, V>(model: Map<K, V>, k: K) -> Option<K> {
    if exists|s: K| is_prev(model, k, Some(s)) {
        Some(choose|s: K| is_prev(model, k, Some(s)))
    } else {
        None
    }
}

/// There is one previous key at most.
pub proof fn lemma_prev_unique<K: Ord, V>(model: Map<K, V>, k: K, prev: Option<K>)
    requires
        total_order::<K>(),
        is_prev(model, k, prev),
    ensures
        prev_key(model, k) == prev,
{
    lemma_order_laws::<K>();
    match prev {
        Some(s) => {
            let t = choose|t: K| is_prev(model, k, Some(t));
            assert(is_prev(model, k, Some(t)));
            assert(model.dom().contains(s) && key_lt(s, k));
            assert(model.dom().contains(t) && key_lt(t, k));
        },
        None => {
            if exists|s: K| is_prev(model, k, Some(s)) {
                let t = choose|t: K| is_prev(model, k, Some(t));
                assert(model.dom().contains(t));
            }
        },
    }
}

/// The beginning of a node's interval, if it has one, is the key of an item
/// of the tree.
pub proof fn lemma_lo_held<K: Ord, V>(
    cells: Cells<K, V>,
    root: usize,
    g: Shape<K>,
    over: Option<usize>,
    under: Option<usize>,
    id: usize,
)
    requires
        tree_ok(cells, root, g, over, under),
        g.nodes.contains(id),
        g.lo[id].is_some(),
    ensures
        exists|m: usize, j: int| #[trigger] holds(cells, g, m, j, g.lo[id].unwrap()),
    decreases g.level[root] - g.level[id],
{
    assert(node_ok(cells, root, g, id));
    let p = cells[id]@.parent.unwrap();
    let i = choose|i: int| child_at(cells, p, i, id);
    assert(child_at(cells, p, i, id));
    assert(node_ok(cells, root, g, p));
    assert(child_ok(cells, g, p, i));
    if i > 0 {
        assert(holds(cells, g, p, i - 1, g.lo[id].unwrap()));
    } else {
        lemma_lo_held(cells, root, g, over, under, p);
        let (m, j) = choose|m: usize, j: int| holds(cells, g, m, j, g.lo[p].unwrap());
        assert(holds(cells, g, m, j, g.lo[id].unwrap()));
    }
}

/// What comes at and after the place `offset` of the node `id`: the key of
/// the item there, or the end of the node's interval.
pub open spec fn next_at<K, V>(cells: Cells<K, V>, g: Shape<K>, id: usize, offset: int) -> Option<K> {
    if offset < cells[id]@.items.len() {
        Some(cells[id]@.items[offset].key)
    } else {
        g.hi[id]
    }
}

/// What comes before the place `offset` of the node `id`: the key of the item
/// to its left, or the beginning of the node's interval.
pub open spec fn prev_at<K, V>(cells: Cells<K, V>, g: Shape<K>, id: usize, offset: int) -> Option<K> {
    if offset > 0 {
        Some(cells[id]@.items[offset - 1].key)
    } else {
        g.lo[id]
    }
}

/// In a leaf the keys around a place follow one another in the tree: no key
/// of the tree lies between what comes before the place and what comes after
/// it.
#[verifier::rlimit(50)]
pub proof fn lemma_leaf_gap<K: Ord, V>(
    cells: Cells<K, V>,
    root: usize,
    g: Shape<K>,
    model: Map<K, V>,
    leaf: usize,
    offset: int,
)
    requires
        total_order::<K>(),
        tree_ok(cells, root, g, None, None),
        model_ok(cells, g, model),
        g.nodes.contains(leaf),
        cells[leaf]@.is_leaf(),
        0 <= offset <= cells[leaf]@.items.len(),
    ensures
        prev_at(cells, g, leaf, offset).is_some() ==> is_next(
            model,
            prev_at(cells, g, leaf, offset).unwrap(),
            next_at(cells, g, leaf, offset),
        ),
        next_at(cells, g, leaf, offset).is_some() ==> is_prev(
            model,
            next_at(cells, g, leaf, offset).unwrap(),
            prev_at(cells, g, leaf, offset),
        ),
        prev_at(cells, g, leaf, offset).is_none() && next_at(cells, g, leaf, offset).is_none()
            ==> model == Map::<K, V>::empty(),
        prev_at(cells, g, leaf, offset).is_some() ==> model.dom().contains(
            prev_at(cells, g, leaf, offset).unwrap(),
        ),
        next_at(cells, g, leaf, offset).is_some() ==> model.dom().contains(
            next_at(cells, g, leaf, offset).unwrap(),
        ),
{
    lemma_order_laws::<K>();
    let items = cells[leaf]@.items;
    let before = prev_at(cells, g, leaf, offset);
    let after = next_at(cells, g, leaf, offset);
    assert(node_ok(cells, root, g, leaf));
    if offset > 0 {
        assert(in_range(g, leaf, items[offset - 1].key));
        let it = item_at(cells, leaf, offset - 1);
        assert(model.contains_pair(it.key, it.value));
    } else if g.lo[leaf].is_some() {
        lemma_lo_held(cells, root, g, None, None, leaf);
        let (m, j) = choose|m: usize, j: int| holds(cells, g, m, j, g.lo[leaf].unwrap());
        let it = item_at(cells, m, j);
        assert(model.contains_pair(it.key, it.value));
    }
    if offset < items.len() {
        assert(in_range(g, leaf, items[offset].key));
        let it = item_at(cells, leaf, offset);
        assert(model.contains_pair(it.key, it.value));
    } else if g.hi[leaf].is_some() {
        lemma_hi_held(cells, root, g, None, None, leaf);
        let (m, j) = choose|m: usize, j: int| holds(cells, g, m, j, g.hi[leaf].unwrap());
        let it = item_at(cells, m, j);
        assert(model.contains_pair(it.key, it.value));
    }
    if offset > 0 && offset < items.len() {
        assert(key_lt(items[offset - 1].key, items[offset].key));
    }
    // a key of the tree between the two would be an item of the leaf
    assert forall|q: K|
        #[trigger] model.dom().contains(q) && (match before {
            Some(b) => key_lt(b, q),
            None => true,
        }) && (match after {
            Some(a) => key_lt(q, a),
            None => true,
        }) implies false by {
        let (m, j) = choose|y: usize, i: int| holds(cells, g, y, i, q);
        assert(holds(cells, g, m, j, q));
        assert(in_range(g, leaf, q));
        lemma_holder(cells, root, g, None, None, leaf, m, j, q);
        if j < offset - 1 {
            assert(key_lt(items[j].key, items[offset - 1].key));
        } else if j > offset {
            assert(key_lt(items[offset].key, items[j].key));
        }
    }
    if before.is_none() && after.is_none() {
        assert forall|q: K| !model.dom().contains(q) by {}
        assert(model =~= Map::<K, V>::empty());
    }
}

/// A tree stays in order, with the same items, while the cells of its nodes
/// stay as they are.
pub proof fn lemma_tree_frame<K: Ord, V>(
    before: Cells<K, V>,
    after: Cells<K, V>,
    root: usize,
    g: Shape<K>,
    model: Map<K, V>,
)
    requires
        tree_ok(before, root, g, None, None),
        model_ok(before, g, model),
        forall|y: usize| g.nodes.contains(y) ==> after.dom().contains(y) && after[y] == before[y],
    ensures
        tree_ok(after, root, g, None, None),
        model_ok(after, g, model),
{
    assert forall|y: usize| #[trigger] g.nodes.contains(y) implies node_ok(after, root, g, y) && node_fill(
        after,
        root,
        None,
        None,
        y,
    ) by {
        assert(node_ok(before, root, g, y));
        assert(node_fill(before, root, None, None, y));
        assert forall|i: int| 0 <= i < after[y]@.children.len() implies #[trigger] child_ok(after, g, y, i) by {
            assert(child_ok(before, g, y, i));
        }
        if y != root {
            let p = before[y]@.parent.unwrap();
            let i = choose|i: int| child_at(before, p, i, y);
            assert(child_at(before, p, i, y));
            assert(child_at(after, p, i, y));
        }
    }
    assert forall|y: usize, i: int| g.nodes.contains(y) && 0 <= i < after[y]@.items.len() implies model.contains_pair(
        (#[trigger] item_at(after, y, i)).key,
        item_at(after, y, i).value,
    ) by {
        assert(item_at(after, y, i) == item_at(before, y, i));
    }
    assert forall|k: K| #[trigger] model.dom().contains(k) implies exists|y: usize, i: int| #[trigger]
        holds(after, g, y, i, k) by {
        let (y0, i0) = choose|y: usize, i: int| holds(before, g, y, i, k);
        assert(holds(before, g, y0, i0, k));
        assert(item_at(after, y0, i0) == item_at(before, y0, i0));
        assert(holds(after, g, y0, i0, k));
    }
}

} // verus!
