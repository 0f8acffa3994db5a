//! Taking an item out of an internal node: the greatest item of the subtree
//! to its left takes its place, and the bounds of the nodes on the way change
//! with it.

use vstd::prelude::*;
use crate::node::{NodeView, MIN_ITEMS};
use crate::order::{key_lt, lemma_order_laws, total_order};
use crate::tree::{
    child_at, child_ok, evolves, holds, in_range, is_next, item_at, lemma_children_distinct,
    lemma_holder, lemma_nodes_in_cells, lemma_unique, model_ok, node_fill, node_local, node_ok,
    place_ok, tree_ok, Cells, Shape,
};

verus! {

/// `path` goes down from `top` to a leaf, at each node through the last child
/// (`last`) or through the first one.
pub open spec fn spine<K, V>(c: Cells<K, V>, path: Seq<usize>, top: usize, last: bool) -> bool {
    &&& path.len() >= 1
    &&& path[0] == top
    &&& forall|t: int|
        0 <= t < path.len() - 1 ==> !c[#[trigger] path[t]]@.is_leaf() && path[t + 1] == (if last {
            c[path[t]]@.children.last()
        } else {
            c[path[t]]@.children[0]
        })
    &&& c[path.last()]@.is_leaf()
}

/// What holds before the item at `i` of the internal node `x` is replaced:
/// `left` goes down from the child before the item to the leaf that holds
/// its predecessor, `right` from the child after it to the leaf that holds
/// its successor.
pub open spec fn swap_pre<K: Ord, V>(
    c0: Cells<K, V>,
    root: usize,
    g0: Shape<K>,
    x: usize,
    i: int,
    left: Seq<usize>,
    right: Seq<usize>,
) -> bool {
    &&& total_order::<K>()
    &&& tree_ok(c0, root, g0, None, None)
    &&& g0.nodes.contains(x)
    &&& !c0[x]@.is_leaf()
    &&& 0 <= i < c0[x]@.items.len()
    &&& spine(c0, left, c0[x]@.children[i], true)
    &&& spine(c0, right, c0[x]@.children[i + 1], false)
}

/// The nodes of the path on the left are nodes of the tree whose intervals
/// end at the item.
pub proof fn lemma_spine_left<K: Ord, V>(
    c0: Cells<K, V>,
    root: usize,
    g0: Shape<K>,
    x: usize,
    i: int,
    left: Seq<usize>,
    right: Seq<usize>,
    t: int,
)
    requires
        swap_pre(c0, root, g0, x, i, left, right),
        0 <= t < left.len(),
    ensures
        g0.nodes.contains(left[t]),
        node_ok(c0, root, g0, left[t]),
        g0.hi[left[t]] == Some(c0[x]@.items[i].key),
        g0.level[left[t]] + t + 1 == g0.level[x],
        c0[left[t]]@.parent == Some(if t == 0 {
            x
        } else {
            left[t - 1]
        }),
        left[t] != root,
        c0[left[t]]@.items.len() >= MIN_ITEMS,
    decreases t,
{
    assert(node_ok(c0, root, g0, x));
    assert(node_ok(c0, root, g0, root));
    if t == 0 {
        assert(child_ok(c0, g0, x, i));
    } else {
        lemma_spine_left(c0, root, g0, x, i, left, right, t - 1);
        let z = left[t - 1];
        assert(!c0[z]@.is_leaf());
        assert(child_ok(c0, g0, z, c0[z]@.children.len() - 1));
    }
    assert(node_ok(c0, root, g0, left[t]));
    assert(node_fill(c0, root, None, None, left[t]));
}

/// The nodes of the path on the right are nodes of the tree whose intervals
/// begin at the item.
pub proof fn lemma_spine_right<K: Ord, V>(
    c0: Cells<K, V>,
    root: usize,
    g0: Shape<K>,
    x: usize,
    i: int,
    left: Seq<usize>,
    right: Seq<usize>,
    t: int,
)
    requires
        swap_pre(c0, root, g0, x, i, left, right),
        0 <= t < right.len(),
    ensures
        g0.nodes.contains(right[t]),
        node_ok(c0, root, g0, right[t]),
        g0.lo[right[t]] == Some(c0[x]@.items[i].key),
        g0.level[right[t]] + t + 1 == g0.level[x],
        c0[right[t]]@.parent == Some(if t == 0 {
            x
        } else {
            right[t - 1]
        }),
        right[t] != root,
        c0[right[t]]@.items.len() >= MIN_ITEMS,
    decreases t,
{
    assert(node_ok(c0, root, g0, x));
    assert(node_ok(c0, root, g0, root));
    if t == 0 {
        assert(child_ok(c0, g0, x, i + 1));
    } else {
        lemma_spine_right(c0, root, g0, x, i, left, right, t - 1);
        let z = right[t - 1];
        assert(!c0[z]@.is_leaf());
        assert(child_ok(c0, g0, z, 0));
    }
    assert(node_ok(c0, root, g0, right[t]));
    assert(node_fill(c0, root, None, None, right[t]));
}

/// The key of the predecessor.
pub open spec fn pred_key<K, V>(c0: Cells<K, V>, left: Seq<usize>) -> K {
    c0[left.last()]@.items.last().key
}

/// The predecessor lies inside the interval of every node of the path on the
/// left, after all items of those above the leaf.
pub proof fn lemma_spine_pred<K: Ord, V>(
    c0: Cells<K, V>,
    root: usize,
    g0: Shape<K>,
    x: usize,
    i: int,
    left: Seq<usize>,
    right: Seq<usize>,
    t: int,
)
    requires
        swap_pre(c0, root, g0, x, i, left, right),
        0 <= t < left.len(),
    ensures
        in_range(g0, left[t], pred_key(c0, left)),
        t < left.len() - 1 ==> forall|a: int|
            0 <= a < c0[left[t]]@.items.len() ==> key_lt(
                (#[trigger] c0[left[t]]@.items[a]).key,
                pred_key(c0, left),
            ),
    decreases left.len() - t,
{
    lemma_order_laws::<K>();
    lemma_spine_left(c0, root, g0, x, i, left, right, t);
    let z = left[t];
    let q = pred_key(c0, left);
    let zv = c0[z]@;
    if t == left.len() - 1 {
        assert(in_range(g0, z, zv.items[zv.items.len() - 1].key));
    } else {
        lemma_spine_pred(c0, root, g0, x, i, left, right, t + 1);
        let last = zv.children.len() - 1;
        assert(child_ok(c0, g0, z, last));
        assert(in_range(g0, z, zv.items[last - 1].key));
        assert(key_lt(zv.items[last - 1].key, q));
        assert forall|a: int| 0 <= a < zv.items.len() implies key_lt((#[trigger] zv.items[a]).key, q) by {
            if a < last - 1 {
                assert(key_lt(zv.items[a].key, zv.items[last - 1].key));
            }
        }
    }
}

/// The cells after the last item of the leaf `y` took the place of the item
/// at `i` of the node `x`.
pub open spec fn swapped_cells<K, V>(c0: Cells<K, V>, c1: Cells<K, V>, x: usize, i: int, y: usize) -> bool {
    &&& c1.dom() == c0.dom()
    &&& c1[y]@ == (NodeView { items: c0[y]@.items.drop_last(), ..c0[y]@ })
    &&& c1[x]@ == (NodeView { items: c0[x]@.items.update(i, c0[y]@.items.last()), ..c0[x]@ })
    &&& forall|c: usize| c0.dom().contains(c) && c != x && c != y ==> #[trigger] c1[c] == c0[c]
}

/// The shape after the predecessor `q` took the place of an item: the
/// intervals of the nodes on the left path end at `q`, those of the nodes on
/// the right path begin at it.
pub open spec fn swapped_shape<K>(g0: Shape<K>, left: Seq<usize>, right: Seq<usize>, q: K) -> Shape<K> {
    Shape {
        lo: Map::new(
            |z: usize| true,
            |z: usize|
                if right.contains(z) {
                    Some(q)
                } else {
                    g0.lo[z]
                },
        ),
        hi: Map::new(
            |z: usize| true,
            |z: usize|
                if left.contains(z) {
                    Some(q)
                } else {
                    g0.hi[z]
                },
        ),
        ..g0
    }
}

/// The two paths share no node and do not pass through `x`; a child of a
/// node lies on a path only if it is the next node of the path.
#[verifier::rlimit(50)]
proof fn lemma_spines_apart<K: Ord, V>(
    c0: Cells<K, V>,
    root: usize,
    g0: Shape<K>,
    x: usize,
    i: int,
    left: Seq<usize>,
    right: Seq<usize>,
)
    requires
        swap_pre(c0, root, g0, x, i, left, right),
    ensures
        !left.contains(x),
        !right.contains(x),
        forall|z: usize| !(left.contains(z) && right.contains(z)),
        forall|t: int, u: int| 0 <= t < u < left.len() ==> left[t] != left[u],
        forall|t: int, u: int| 0 <= t < u < right.len() ==> right[t] != right[u],
{
    lemma_order_laws::<K>();
    assert forall|t: int| 0 <= t < left.len() implies left[t] != x by {
        lemma_spine_left(c0, root, g0, x, i, left, right, t);
    }
    assert forall|t: int| 0 <= t < right.len() implies right[t] != x by {
        lemma_spine_right(c0, root, g0, x, i, left, right, t);
    }
    assert forall|z: usize| !(left.contains(z) && right.contains(z)) by {
        if left.contains(z) && right.contains(z) {
            let t = choose|t: int| 0 <= t < left.len() && left[t] == z;
            let u = choose|u: int| 0 <= u < right.len() && right[u] == z;
            lemma_spine_left(c0, root, g0, x, i, left, right, t);
            lemma_spine_right(c0, root, g0, x, i, left, right, u);
            assert(in_range(g0, z, c0[z]@.items[0].key));
        }
    }
    assert forall|t: int, u: int| 0 <= t < u < left.len() implies left[t] != left[u] by {
        lemma_spine_left(c0, root, g0, x, i, left, right, t);
        lemma_spine_left(c0, root, g0, x, i, left, right, u);
    }
    assert forall|t: int, u: int| 0 <= t < u < right.len() implies right[t] != right[u] by {
        lemma_spine_right(c0, root, g0, x, i, left, right, t);
        lemma_spine_right(c0, root, g0, x, i, left, right, u);
    }
}

/// A child lies on the left path only as the last child of the node before it
/// on the path, or as the child of `x` before the item.
proof fn lemma_child_on_left<K: Ord, V>(
    c0: Cells<K, V>,
    root: usize,
    g0: Shape<K>,
    x: usize,
    i: int,
    left: Seq<usize>,
    right: Seq<usize>,
    z: usize,
    a: int,
)
    requires
        swap_pre(c0, root, g0, x, i, left, right),
        g0.nodes.contains(z),
        0 <= a < c0[z]@.children.len(),
        left.contains(c0[z]@.children[a]),
    ensures
        (z == x && a == i) || (left.contains(z) && a == c0[z]@.children.len() - 1),
{
    let c = c0[z]@.children[a];
    let t = choose|t: int| 0 <= t < left.len() && left[t] == c;
    lemma_spine_left(c0, root, g0, x, i, left, right, t);
    assert(node_ok(c0, root, g0, z));
    assert(child_ok(c0, g0, z, a));
    if t == 0 {
        assert(z == x);
        if a != i {
            if a < i {
                lemma_children_distinct(c0, root, g0, x, a, i);
            } else {
                lemma_children_distinct(c0, root, g0, x, i, a);
            }
        }
    } else {
        assert(z == left[t - 1]);
        let last = c0[z]@.children.len() - 1;
        if a != last {
            lemma_children_distinct(c0, root, g0, z, a, last);
        }
    }
}

/// A child lies on the right path only as the first child of the node before
/// it on the path, or as the child of `x` after the item.
proof fn lemma_child_on_right<K: Ord, V>(
    c0: Cells<K, V>,
    root: usize,
    g0: Shape<K>,
    x: usize,
    i: int,
    left: Seq<usize>,
    right: Seq<usize>,
    z: usize,
    a: int,
)
    requires
        swap_pre(c0, root, g0, x, i, left, right),
        g0.nodes.contains(z),
        0 <= a < c0[z]@.children.len(),
        right.contains(c0[z]@.children[a]),
    ensures
        (z == x && a == i + 1) || (right.contains(z) && a == 0),
{
    let c = c0[z]@.children[a];
    let t = choose|t: int| 0 <= t < right.len() && right[t] == c;
    lemma_spine_right(c0, root, g0, x, i, left, right, t);
    assert(node_ok(c0, root, g0, z));
    assert(child_ok(c0, g0, z, a));
    if t == 0 {
        assert(z == x);
        if a != i + 1 {
            if a < i + 1 {
                lemma_children_distinct(c0, root, g0, x, a, i + 1);
            } else {
                lemma_children_distinct(c0, root, g0, x, i + 1, a);
            }
        }
    } else {
        assert(z == right[t - 1]);
        if a != 0 {
            lemma_children_distinct(c0, root, g0, z, 0, a);
        }
    }
}

#[verifier::rlimit(50)]

proof fn lemma_swapped_node<K: Ord, V>(
    c0: Cells<K, V>,
    c1: Cells<K, V>,
    root: usize,
    g0: Shape<K>,
    x: usize,
    i: int,
    left: Seq<usize>,
    right: Seq<usize>,
    z: usize,
)
    requires
        swap_pre(c0, root, g0, x, i, left, right),
        swapped_cells(c0, c1, x, i, left.last()),
        g0.nodes.contains(z),
    ensures
        node_ok(c1, root, swapped_shape(g0, left, right, pred_key(c0, left)), z),
        node_fill(c1, root, None, Some(left.last()), z),
{
    lemma_order_laws::<K>();
    let y = left.last();
    let q = pred_key(c0, left);
    let k = c0[x]@.items[i].key;
    let g1 = swapped_shape(g0, left, right, q);
    lemma_spines_apart(c0, root, g0, x, i, left, right);
    lemma_spine_left(c0, root, g0, x, i, left, right, left.len() - 1);
    lemma_spine_left(c0, root, g0, x, i, left, right, 0);
    lemma_spine_right(c0, root, g0, x, i, left, right, 0);
    lemma_spine_pred(c0, root, g0, x, i, left, right, 0);
    assert(key_lt(q, k));
    assert(node_ok(c0, root, g0, z));
    assert(node_ok(c0, root, g0, x));
    assert(node_ok(c0, root, g0, root));
    assert(node_fill(c0, root, None, None, z));
    let zv = c0[z]@;
    let nv = c1[z]@;
    let on_left = left.contains(z);
    let on_right = right.contains(z);
    assert(nv.children == zv.children);
    assert(nv.parent == zv.parent);
    // the items of the node lie inside its new interval
    if z == x {
        assert(child_ok(c0, g0, x, i));
        assert(in_range(g0, x, k));
        assert forall|a: int| 0 <= a < nv.items.len() implies in_range(g1, z, (#[trigger] nv.items[a]).key) by {
            if a != i {
                assert(nv.items[a] == zv.items[a]);
                assert(in_range(g0, x, zv.items[a].key));
            }
        }
        assert forall|a: int, b: int| 0 <= a < b < nv.items.len() implies key_lt(
            #[trigger] nv.items[a].key,
            #[trigger] nv.items[b].key,
        ) by {
            if a != i {
                assert(nv.items[a] == zv.items[a]);
            }
            if b != i {
                assert(nv.items[b] == zv.items[b]);
            }
            if a == i {
                assert(key_lt(zv.items[i].key, zv.items[b].key));
            }
            if b == i {
                // items[a] <= items[i - 1] < q
                assert(key_lt(zv.items[i - 1].key, q));
                if a < i - 1 {
                    assert(key_lt(zv.items[a].key, zv.items[i - 1].key));
                }
            }
        }
    } else if z == y {
        let len = zv.items.len() as int;
        assert forall|a: int| 0 <= a < nv.items.len() implies in_range(g1, z, (#[trigger] nv.items[a]).key) by {
            assert(nv.items[a] == zv.items[a]);
            assert(in_range(g0, z, zv.items[a].key));
            assert(key_lt(zv.items[a].key, zv.items[len - 1].key));
        }
        assert forall|a: int, b: int| 0 <= a < b < nv.items.len() implies key_lt(
            #[trigger] nv.items[a].key,
            #[trigger] nv.items[b].key,
        ) by {
            assert(nv.items[a] == zv.items[a]);
            assert(nv.items[b] == zv.items[b]);
        }
    } else {
        assert(c1[z] == c0[z]);
        if on_left {
            let t = choose|t: int| 0 <= t < left.len() && left[t] == z;
            lemma_spine_pred(c0, root, g0, x, i, left, right, t);
            assert forall|a: int| 0 <= a < nv.items.len() implies in_range(g1, z, (#[trigger] nv.items[a]).key) by {
                assert(in_range(g0, z, zv.items[a].key));
            }
        } else if on_right {
            let t = choose|t: int| 0 <= t < right.len() && right[t] == z;
            lemma_spine_right(c0, root, g0, x, i, left, right, t);
            assert forall|a: int| 0 <= a < nv.items.len() implies in_range(g1, z, (#[trigger] nv.items[a]).key) by {
                assert(in_range(g0, z, zv.items[a].key));
            }
        } else {
            assert forall|a: int| 0 <= a < nv.items.len() implies in_range(g1, z, (#[trigger] nv.items[a]).key) by {
                assert(in_range(g0, z, zv.items[a].key));
            }
        }
    }
    assert(node_local(c1, g1, z));
    // the children of the node
    assert forall|a: int| 0 <= a < nv.children.len() implies #[trigger] child_ok(c1, g1, z, a) by {
        let c = zv.children[a];
        assert(child_ok(c0, g0, z, a));
        assert(c1[c]@.parent == c0[c]@.parent);
        if left.contains(c) {
            lemma_child_on_left(c0, root, g0, x, i, left, right, z, a);
        }
        if right.contains(c) {
            lemma_child_on_right(c0, root, g0, x, i, left, right, z, a);
        }
        if on_left && a == zv.children.len() - 1 {
            let t = choose|t: int| 0 <= t < left.len() && left[t] == z;
            assert(t < left.len() - 1) by {
                if t == left.len() - 1 {
                    assert(zv.is_leaf());
                }
            }
            assert(left[t + 1] == c);
        }
        if on_right && a == 0 {
            let t = choose|t: int| 0 <= t < right.len() && right[t] == z;
            assert(t < right.len() - 1) by {
                if t == right.len() - 1 {
                    assert(zv.is_leaf());
                }
            }
            assert(right[t + 1] == c);
        }
        if z == x {
            if a == i {
                assert(left[0] == c);
            }
            if a == i + 1 {
                assert(right[0] == c);
            }
            if a < nv.items.len() && a != i {
                assert(nv.items[a] == zv.items[a]);
            }
            if a > 0 && a - 1 != i {
                assert(nv.items[a - 1] == zv.items[a - 1]);
            }
        }
    }
    if z != root {
        let p = zv.parent.unwrap();
        let a = choose|a: int| child_at(c0, p, a, z);
        assert(child_at(c0, p, a, z));
        assert(c1[p]@.children == c0[p]@.children);
        assert(child_at(c1, p, a, z));
    } else {
        assert(!on_left) by {
            if on_left {
                let t = choose|t: int| 0 <= t < left.len() && left[t] == z;
                lemma_spine_left(c0, root, g0, x, i, left, right, t);
            }
        }
        assert(!on_right) by {
            if on_right {
                let t = choose|t: int| 0 <= t < right.len() && right[t] == z;
                lemma_spine_right(c0, root, g0, x, i, left, right, t);
            }
        }
    }
}

/// After the predecessor took the place of the item the tree is in order, but
/// that the leaf which gave the predecessor may hold one item too few; the
/// items are those of before without the one replaced, and the first place of
/// the leaf at the end of the right path is the place before the next key.
#[verifier::rlimit(50)]
pub proof fn lemma_swapped<K: Ord, V>(
    c0: Cells<K, V>,
    c1: Cells<K, V>,
    root: usize,
    g0: Shape<K>,
    model: Map<K, V>,
    x: usize,
    i: int,
    left: Seq<usize>,
    right: Seq<usize>,
)
    requires
        swap_pre(c0, root, g0, x, i, left, right),
        model_ok(c0, g0, model),
        swapped_cells(c0, c1, x, i, left.last()),
    ensures
        tree_ok(
            c1,
            root,
            swapped_shape(g0, left, right, pred_key(c0, left)),
            None,
            Some(left.last()),
        ),
        model_ok(
            c1,
            swapped_shape(g0, left, right, pred_key(c0, left)),
            model.remove(c0[x]@.items[i].key),
        ),
        place_ok(
            c1,
            swapped_shape(g0, left, right, pred_key(c0, left)),
            right.last(),
            0,
            Some(c0[right.last()]@.items[0].key),
        ),
        is_next(
            model.remove(c0[x]@.items[i].key),
            c0[x]@.items[i].key,
            Some(c0[right.last()]@.items[0].key),
        ),
        model.contains_pair(c0[x]@.items[i].key, c0[x]@.items[i].value),
        evolves(c0, c1, g0.nodes, g0.nodes),
        g0.nodes.contains(left.last()),
{
    lemma_order_laws::<K>();
    lemma_nodes_in_cells(c0, root, g0, None, None);
    let y = left.last();
    let far = right.last();
    let q = pred_key(c0, left);
    let k = c0[x]@.items[i].key;
    let g1 = swapped_shape(g0, left, right, q);
    let m1 = model.remove(k);
    lemma_spines_apart(c0, root, g0, x, i, left, right);
    lemma_spine_left(c0, root, g0, x, i, left, right, left.len() - 1);
    lemma_spine_right(c0, root, g0, x, i, left, right, right.len() - 1);
    lemma_spine_pred(c0, root, g0, x, i, left, right, 0);
    lemma_spine_left(c0, root, g0, x, i, left, right, 0);
    assert(key_lt(q, k));
    let ylen = c0[y]@.items.len() as int;
    assert forall|z: usize| #[trigger] g1.nodes.contains(z) implies node_ok(c1, root, g1, z) && node_fill(
        c1,
        root,
        None,
        Some(y),
        z,
    ) by {
        lemma_swapped_node(c0, c1, root, g0, x, i, left, right, z);
    }
    let taken = item_at(c0, x, i);
    assert(model.contains_pair(taken.key, taken.value));
    assert(holds(c0, g0, x, i, k));
    assert forall|z: usize, a: int| g1.nodes.contains(z) && 0 <= a < c1[z]@.items.len() implies m1.contains_pair(
        (#[trigger] item_at(c1, z, a)).key,
        item_at(c1, z, a).value,
    ) by {
        let (z0, a0) = if z == x && a == i {
            (y, ylen - 1)
        } else {
            (z, a)
        };
        assert(item_at(c1, z, a) == item_at(c0, z0, a0));
        assert(holds(c0, g0, z0, a0, item_at(c0, z0, a0).key));
        if item_at(c0, z0, a0).key == k {
            lemma_unique(c0, root, g0, None, None, z0, a0, x, i, k);
        }
    }
    assert forall|w: K| #[trigger] m1.dom().contains(w) implies exists|z: usize, a: int| #[trigger]
        holds(c1, g1, z, a, w) by {
        let (z0, a0) = choose|z: usize, a: int| holds(c0, g0, z, a, w);
        assert(holds(c0, g0, z0, a0, w));
        if z0 == y && a0 == ylen - 1 {
            assert(item_at(c1, x, i) == item_at(c0, y, ylen - 1));
            assert(holds(c1, g1, x, i, w));
        } else {
            assert(!(z0 == x && a0 == i));
            assert(item_at(c1, z0, a0) == item_at(c0, z0, a0));
            assert(holds(c1, g1, z0, a0, w));
        }
    }
    // the first item of the far leaf follows the item
    let s = c0[far]@.items[0].key;
    assert(far != x && far != y);
    assert(c1[far] == c0[far]);
    assert(in_range(g0, far, s));
    assert(item_at(c1, far, 0).key == s);
    assert(m1.contains_pair(item_at(c1, far, 0).key, item_at(c1, far, 0).value));
    assert(key_lt(k, s));
    assert forall|w: K| #[trigger] m1.dom().contains(w) && key_lt(k, w) implies !key_lt(w, s) by {
        if key_lt(w, s) {
            let (m, j) = choose|z: usize, a: int| holds(c0, g0, z, a, w);
            assert(holds(c0, g0, m, j, w));
            assert(in_range(g0, far, w));
            lemma_holder(c0, root, g0, None, None, far, m, j, w);
            if j > 0 {
                assert(key_lt(c0[far]@.items[0].key, c0[far]@.items[j].key));
            }
        }
    }
}

} // verus!
