//! Merging two siblings around the item that stands between them, and the
//! change of the root that may end it.

use vstd::prelude::*;
use crate::node::{NodeView, M, MIN_ITEMS};
use crate::order::{key_lt, lemma_order_laws, total_order};
use crate::tree::{
    child_at, child_ok, evolves, holds, in_range, item_at, lemma_children_distinct,
    lemma_nodes_in_cells, model_ok, node_fill, node_local, node_ok, place_ok, tree_ok, Cells,
    Shape,
};

verus! {

/// The cells after the children `l` and `r` of `p`, which stand at `i` and
/// `i + 1`, were merged: `l` holds its own items, the item that stood between
/// the two in `p`, and the items of `r`; the cell of `r` is vacant.
pub open spec fn merged_cells<K, V>(
    c0: Cells<K, V>,
    c1: Cells<K, V>,
    p: usize,
    i: int,
    l: usize,
    r: usize,
) -> bool {
    let lv = c0[l]@;
    let rv = c0[r]@;
    let pv = c0[p]@;
    &&& c1.dom() == c0.dom().remove(r)
    &&& c1[l]@ == (NodeView {
        parent: lv.parent,
        items: lv.items.push(pv.items[i]) + rv.items,
        children: lv.children + rv.children,
    })
    &&& c1[p]@ == (NodeView {
        parent: pv.parent,
        items: pv.items.remove(i),
        children: pv.children.remove(i + 1),
    })
    &&& forall|j: int|
        0 <= j < rv.children.len() ==> c1[#[trigger] rv.children[j]]@ == (NodeView {
            parent: Some(l),
            ..c0[rv.children[j]]@
        })
    &&& forall|c: usize|
        c0.dom().contains(c) && c != l && c != r && c != p && !rv.children.contains(c)
            ==> #[trigger] c1[c] == c0[c]
}

/// The shape after a merge.
pub open spec fn merged_shape<K>(g0: Shape<K>, l: usize, r: usize) -> Shape<K> {
    Shape { nodes: g0.nodes.remove(r), hi: g0.hi.insert(l, g0.hi[r]), ..g0 }
}

/// What holds before the merge of the children `l` and `r` of `p`, one of
/// which is the node `d` that holds too few items.
pub open spec fn merged_pre<K: Ord, V>(
    c0: Cells<K, V>,
    c1: Cells<K, V>,
    root: usize,
    g0: Shape<K>,
    d: usize,
    p: usize,
    i: int,
    l: usize,
    r: usize,
) -> bool {
    &&& total_order::<K>()
    &&& tree_ok(c0, root, g0, None, Some(d))
    &&& (d == l || d == r)
    &&& g0.nodes.contains(p)
    &&& child_at(c0, p, i, l)
    &&& child_at(c0, p, i + 1, r)
    &&& c0[l]@.items.len() + c0[r]@.items.len() + 1 <= M - 1
    &&& c0[l]@.items.len() + c0[r]@.items.len() + 1 >= MIN_ITEMS
    &&& merged_cells(c0, c1, p, i, l, r)
}

/// Where a place of the tree is found after the merge.
pub open spec fn merged_place<K, V>(
    c0: Cells<K, V>,
    p: usize,
    i: int,
    l: usize,
    r: usize,
    id: usize,
    offset: int,
) -> (usize, int) {
    if id == p {
        if offset == i {
            (l, c0[l]@.items.len() as int)
        } else if offset > i {
            (p, offset - 1)
        } else {
            (p, offset)
        }
    } else if id == r {
        (l, offset + c0[l]@.items.len() + 1)
    } else {
        (id, offset)
    }
}

#[verifier::rlimit(50)]

proof fn lemma_merged_basics<K: Ord, V>(
    c0: Cells<K, V>,
    c1: Cells<K, V>,
    root: usize,
    g0: Shape<K>,
    d: usize,
    p: usize,
    i: int,
    l: usize,
    r: usize,
)
    requires
        merged_pre(c0, c1, root, g0, d, p, i, l, r),
    ensures
        l != p,
        r != p,
        l != r,
        l != root,
        r != root,
        g0.nodes.contains(l),
        g0.nodes.contains(r),
        node_ok(c0, root, g0, l),
        node_ok(c0, root, g0, r),
        node_ok(c0, root, g0, p),
        child_ok(c0, g0, p, i),
        child_ok(c0, g0, p, i + 1),
        0 <= i < c0[p]@.items.len(),
        c0[l]@.is_leaf() == c0[r]@.is_leaf(),
        forall|j: int|
            0 <= j < c0[r]@.children.len() ==> child_ok(c0, g0, r, j) && (#[trigger] c0[r]@.children[j])
                != l && c0[r]@.children[j] != r && c0[r]@.children[j] != p && g0.nodes.contains(
                c0[r]@.children[j],
            ),
        forall|y: usize| g0.nodes.contains(y) ==> c0.dom().contains(y),
{
    lemma_order_laws::<K>();
    assert(node_ok(c0, root, g0, p));
    assert(child_ok(c0, g0, p, i));
    assert(child_ok(c0, g0, p, i + 1));
    assert(node_ok(c0, root, g0, l));
    assert(node_ok(c0, root, g0, r));
    assert(node_ok(c0, root, g0, root));
    lemma_children_distinct(c0, root, g0, p, i, i + 1);
    assert forall|j: int| 0 <= j < c0[r]@.children.len() implies child_ok(c0, g0, r, j) && (
    #[trigger] c0[r]@.children[j]) != l && c0[r]@.children[j] != r && c0[r]@.children[j] != p
        && g0.nodes.contains(c0[r]@.children[j]) by {
        assert(child_ok(c0, g0, r, j));
    }
    lemma_nodes_in_cells(c0, root, g0, None, Some(d));
}

#[verifier::rlimit(50)]

proof fn lemma_merged_node<K: Ord, V>(
    c0: Cells<K, V>,
    c1: Cells<K, V>,
    root: usize,
    g0: Shape<K>,
    d: usize,
    p: usize,
    i: int,
    l: usize,
    r: usize,
    y: usize,
)
    requires
        merged_pre(c0, c1, root, g0, d, p, i, l, r),
        g0.nodes.contains(y),
        y != r,
    ensures
        node_ok(c1, root, merged_shape(g0, l, r), y),
        node_fill(c1, root, None, Some(p), y),
{
    lemma_merged_basics(c0, c1, root, g0, d, p, i, l, r);
    lemma_order_laws::<K>();
    let g1 = merged_shape(g0, l, r);
    let lv = c0[l]@;
    let rv = c0[r]@;
    let pv = c0[p]@;
    let sep = pv.items[i];
    let llen = lv.items.len() as int;
    let yv = c0[y]@;
    let nv = c1[y]@;
    assert(node_ok(c0, root, g0, y));
    assert(node_fill(c0, root, None, Some(d), y));
    assert(node_fill(c0, root, None, Some(d), p));
    let moved = rv.children.contains(y);
    if y == l {
        assert(in_range(g0, p, sep.key));
        if i + 1 < pv.items.len() {
            assert(in_range(g0, p, pv.items[i + 1].key));
            assert(key_lt(sep.key, pv.items[i + 1].key));
        }
        if i > 0 {
            assert(in_range(g0, p, pv.items[i - 1].key));
            assert(key_lt(pv.items[i - 1].key, sep.key));
        }
        assert forall|a: int| 0 <= a < nv.items.len() implies in_range(g1, y, (#[trigger] nv.items[a]).key) by {
            if a < llen {
                assert(nv.items[a] == lv.items[a]);
                assert(in_range(g0, l, lv.items[a].key));
            } else if a == llen {
                assert(nv.items[a] == sep);
            } else {
                assert(nv.items[a] == rv.items[a - llen - 1]);
                assert(in_range(g0, r, rv.items[a - llen - 1].key));
            }
        }
        assert forall|a: int, b: int| 0 <= a < b < nv.items.len() implies key_lt(
            #[trigger] nv.items[a].key,
            #[trigger] nv.items[b].key,
        ) by {
            if a < llen {
                assert(nv.items[a] == lv.items[a]);
                assert(in_range(g0, l, lv.items[a].key));
            } else if a == llen {
                assert(nv.items[a] == sep);
            } else {
                assert(nv.items[a] == rv.items[a - llen - 1]);
            }
            if b < llen {
                assert(nv.items[b] == lv.items[b]);
            } else if b == llen {
                assert(nv.items[b] == sep);
            } else {
                assert(nv.items[b] == rv.items[b - llen - 1]);
                assert(in_range(g0, r, rv.items[b - llen - 1].key));
            }
        }
        assert(node_local(c1, g1, y));
        assert forall|a: int| 0 <= a < nv.children.len() implies #[trigger] child_ok(c1, g1, y, a) by {
            assert(nv.items[llen] == sep);
            if a < lv.children.len() {
                let c = lv.children[a];
                assert(nv.children[a] == c);
                assert(child_ok(c0, g0, l, a));
                assert(!rv.children.contains(c)) by {
                    if rv.children.contains(c) {
                        let j = choose|j: int| 0 <= j < rv.children.len() && rv.children[j] == c;
                        assert(child_ok(c0, g0, r, j));
                    }
                }
                assert(c1[c] == c0[c]);
                if a < llen {
                    assert(nv.items[a] == lv.items[a]);
                }
                if a > 0 {
                    assert(nv.items[a - 1] == lv.items[a - 1]);
                }
            } else {
                let j = a - lv.children.len();
                let c = rv.children[j];
                assert(nv.children[a] == c);
                assert(child_ok(c0, g0, r, j));
                if j < rv.items.len() {
                    assert(nv.items[a] == rv.items[j]);
                }
                if j > 0 {
                    assert(nv.items[a - 1] == rv.items[j - 1]);
                }
            }
        }
        assert(child_at(c1, p, i, l));
    } else if y == p {
        assert forall|a: int| 0 <= a < nv.items.len() implies in_range(g1, y, (#[trigger] nv.items[a]).key) by {
            if a < i {
                assert(nv.items[a] == pv.items[a]);
                assert(in_range(g0, p, pv.items[a].key));
            } else {
                assert(nv.items[a] == pv.items[a + 1]);
                assert(in_range(g0, p, pv.items[a + 1].key));
            }
        }
        assert forall|a: int, b: int| 0 <= a < b < nv.items.len() implies key_lt(
            #[trigger] nv.items[a].key,
            #[trigger] nv.items[b].key,
        ) by {
            if a < i {
                assert(nv.items[a] == pv.items[a]);
            } else {
                assert(nv.items[a] == pv.items[a + 1]);
            }
            if b < i {
                assert(nv.items[b] == pv.items[b]);
            } else {
                assert(nv.items[b] == pv.items[b + 1]);
            }
        }
        assert(node_local(c1, g1, y));
        assert forall|a: int| 0 <= a < nv.children.len() implies #[trigger] child_ok(c1, g1, y, a) by {
            let a0 = if a <= i {
                a
            } else {
                a + 1
            };
            let c = pv.children[a0];
            assert(nv.children[a] == c);
            assert(child_ok(c0, g0, p, a0));
            if a0 != i {
                if a0 < i {
                    lemma_children_distinct(c0, root, g0, p, a0, i);
                    lemma_children_distinct(c0, root, g0, p, a0, i + 1);
                } else {
                    lemma_children_distinct(c0, root, g0, p, i, a0);
                    lemma_children_distinct(c0, root, g0, p, i + 1, a0);
                }
                assert(!rv.children.contains(c)) by {
                    if rv.children.contains(c) {
                        let j = choose|j: int| 0 <= j < rv.children.len() && rv.children[j] == c;
                        assert(child_ok(c0, g0, r, j));
                    }
                }
                assert(c1[c] == c0[c]);
            }
            if a < nv.items.len() {
                if a < i {
                    assert(nv.items[a] == pv.items[a]);
                } else {
                    assert(nv.items[a] == pv.items[a + 1]);
                }
            }
            if a > 0 {
                if a - 1 < i {
                    assert(nv.items[a - 1] == pv.items[a - 1]);
                } else {
                    assert(nv.items[a - 1] == pv.items[a]);
                }
            }
        }
        if p != root {
            let q = pv.parent.unwrap();
            let a = choose|a: int| child_at(c0, q, a, p);
            assert(child_at(c0, q, a, p));
            assert(node_ok(c0, root, g0, q));
            assert(child_ok(c0, g0, q, a));
            assert(q != l && q != r);
            assert(c1[q]@.children == c0[q]@.children) by {
                if rv.children.contains(q) {
                    let j = choose|j: int| 0 <= j < rv.children.len() && rv.children[j] == q;
                    assert(child_ok(c0, g0, r, j));
                } else {
                    assert(c1[q] == c0[q]);
                }
            }
            assert(child_at(c1, q, a, p));
        }
    } else {
        if moved {
            let j = choose|j: int| 0 <= j < rv.children.len() && rv.children[j] == y;
            assert(child_ok(c0, g0, r, j));
            assert(nv == (NodeView { parent: Some(l), ..yv }));
            assert(child_at(c1, l, lv.children.len() + j, y));
        } else {
            assert(c1[y] == c0[y]);
        }
        assert(node_local(c1, g1, y));
        assert forall|a: int| 0 <= a < nv.children.len() implies #[trigger] child_ok(c1, g1, y, a) by {
            let c = nv.children[a];
            assert(child_ok(c0, g0, y, a));
            assert(c0[c]@.parent == Some(y));
            assert(c != l && c != r);
            if rv.children.contains(c) {
                let j = choose|j: int| 0 <= j < rv.children.len() && rv.children[j] == c;
                assert(child_ok(c0, g0, r, j));
                assert(false);
            }
            assert(c1[c]@.parent == c0[c]@.parent);
        }
        if y != root && !moved {
            let q = yv.parent.unwrap();
            let a = choose|a: int| child_at(c0, q, a, y);
            assert(child_at(c0, q, a, y));
            assert(node_ok(c0, root, g0, q));
            if q == l {
                assert(child_at(c1, l, a, y));
            } else if q == r {
                assert(rv.children[a] == y);
                assert(false);
            } else if q == p {
                assert(a != i && a != i + 1);
                if a < i {
                    assert(child_at(c1, p, a, y));
                } else {
                    assert(child_at(c1, p, a - 1, y));
                }
            } else {
                assert(c1[q]@.children == c0[q]@.children) by {
                    if rv.children.contains(q) {
                        let j = choose|j: int| 0 <= j < rv.children.len() && rv.children[j] == q;
                        assert(child_ok(c0, g0, r, j));
                    } else {
                        assert(c1[q] == c0[q]);
                    }
                }
                assert(child_at(c1, q, a, y));
            }
        }
    }
}

/// The tree is in order after the merge, but that the parent may now hold
/// one item too few.
#[verifier::rlimit(50)]
pub proof fn lemma_merged_tree<K: Ord, V>(
    c0: Cells<K, V>,
    c1: Cells<K, V>,
    root: usize,
    g0: Shape<K>,
    d: usize,
    p: usize,
    i: int,
    l: usize,
    r: usize,
)
    requires
        merged_pre(c0, c1, root, g0, d, p, i, l, r),
    ensures
        tree_ok(c1, root, merged_shape(g0, l, r), None, Some(p)),
        evolves(c0, c1, g0.nodes, merged_shape(g0, l, r).nodes),
{
    let g1 = merged_shape(g0, l, r);
    lemma_merged_basics(c0, c1, root, g0, d, p, i, l, r);
    assert forall|y: usize| #[trigger] g1.nodes.contains(y) implies node_ok(c1, root, g1, y)
        && node_fill(c1, root, None, Some(p), y) by {
        lemma_merged_node(c0, c1, root, g0, d, p, i, l, r, y);
    }
    let rv = c0[r]@;
    assert forall|id: usize|
        #![trigger c1.dom().contains(id)]
        #![trigger c0.dom().contains(id)]
        c0.dom().contains(id) && !g0.nodes.contains(id) implies c1.dom().contains(id) && c1[id]
            == c0[id] by {
        assert(!rv.children.contains(id)) by {
            if rv.children.contains(id) {
                let j = choose|j: int| 0 <= j < rv.children.len() && rv.children[j] == id;
                assert(child_ok(c0, g0, r, j));
            }
        }
    }
}

/// Every item is found after the merge where `merged_place` says.
pub proof fn lemma_merged_item<K: Ord, V>(
    c0: Cells<K, V>,
    c1: Cells<K, V>,
    root: usize,
    g0: Shape<K>,
    d: usize,
    p: usize,
    i: int,
    l: usize,
    r: usize,
    id: usize,
    offset: int,
)
    requires
        merged_pre(c0, c1, root, g0, d, p, i, l, r),
        g0.nodes.contains(id),
        0 <= offset < c0[id]@.items.len(),
    ensures
        ({
            let place = merged_place(c0, p, i, l, r, id, offset);
            &&& merged_shape(g0, l, r).nodes.contains(place.0)
            &&& 0 <= place.1 < c1[place.0]@.items.len()
            &&& item_at(c1, place.0, place.1) == item_at(c0, id, offset)
        }),
{
    lemma_merged_basics(c0, c1, root, g0, d, p, i, l, r);
    let rv = c0[r]@;
    if id != l && id != r && id != p {
        if rv.children.contains(id) {
            let j = choose|j: int| 0 <= j < rv.children.len() && rv.children[j] == id;
            assert(c1[rv.children[j]]@.items == c0[id]@.items);
        } else {
            assert(c1[id] == c0[id]);
        }
    }
}

/// The items of the tree are the same after the merge, and a place keeps its
/// next key.
#[verifier::rlimit(50)]
pub proof fn lemma_merged_model<K: Ord, V>(
    c0: Cells<K, V>,
    c1: Cells<K, V>,
    root: usize,
    g0: Shape<K>,
    model: Map<K, V>,
    d: usize,
    p: usize,
    i: int,
    l: usize,
    r: usize,
    id: usize,
    offset: int,
    next: Option<K>,
)
    requires
        merged_pre(c0, c1, root, g0, d, p, i, l, r),
        model_ok(c0, g0, model),
        place_ok(c0, g0, id, offset, next),
    ensures
        model_ok(c1, merged_shape(g0, l, r), model),
        place_ok(
            c1,
            merged_shape(g0, l, r),
            merged_place(c0, p, i, l, r, id, offset).0,
            merged_place(c0, p, i, l, r, id, offset).1,
            next,
        ),
{
    let g1 = merged_shape(g0, l, r);
    lemma_merged_basics(c0, c1, root, g0, d, p, i, l, r);
    let llen = c0[l]@.items.len() as int;
    let rv = c0[r]@;
    assert forall|y: usize, a: int| g1.nodes.contains(y) && 0 <= a < c1[y]@.items.len() implies model.contains_pair(
        (#[trigger] item_at(c1, y, a)).key,
        item_at(c1, y, a).value,
    ) by {
        let (y0, a0) = if y == l {
            if a < llen {
                (l, a)
            } else if a == llen {
                (p, i)
            } else {
                (r, a - llen - 1)
            }
        } else if y == p {
            if a < i {
                (p, a)
            } else {
                (p, a + 1)
            }
        } else {
            (y, a)
        };
        if y != l && y != p {
            if rv.children.contains(y) {
                let j = choose|j: int| 0 <= j < rv.children.len() && rv.children[j] == y;
                assert(c1[rv.children[j]]@.items == c0[y]@.items);
            } else {
                assert(c1[y] == c0[y]);
            }
        }
        assert(item_at(c1, y, a) == item_at(c0, y0, a0));
    }
    assert forall|k: K| #[trigger] model.dom().contains(k) implies exists|y: usize, a: int| #[trigger]
        holds(c1, g1, y, a, k) by {
        let (y0, a0) = choose|y: usize, a: int| holds(c0, g0, y, a, k);
        assert(holds(c0, g0, y0, a0, k));
        lemma_merged_item(c0, c1, root, g0, d, p, i, l, r, y0, a0);
        let place = merged_place(c0, p, i, l, r, y0, a0);
        assert(holds(c1, g1, place.0, place.1, k));
    }
    if offset < c0[id]@.items.len() {
        lemma_merged_item(c0, c1, root, g0, d, p, i, l, r, id, offset);
    } else {
        assert(id != p);
        if id == r {
        } else if id == l {
            assert(child_ok(c0, g0, p, i));
            assert(item_at(c1, l, llen) == c0[p]@.items[i]);
        } else {
            if rv.children.contains(id) {
                let j = choose|j: int| 0 <= j < rv.children.len() && rv.children[j] == id;
                assert(c1[rv.children[j]]@.items == c0[id]@.items);
            } else {
                assert(c1[id] == c0[id]);
            }
        }
    }
}

/// The cells after the root `old_root`, which held no item, gave its place
/// to its one child.
pub open spec fn collapsed_cells<K, V>(c0: Cells<K, V>, c1: Cells<K, V>, old_root: usize) -> bool {
    let child = c0[old_root]@.children[0];
    &&& c1.dom() == c0.dom().remove(old_root)
    &&& c1[child]@ == (NodeView { parent: None, ..c0[child]@ })
    &&& forall|c: usize|
        c0.dom().contains(c) && c != old_root && c != child ==> #[trigger] c1[c] == c0[c]
}

/// The one child of a root that holds no item is the root of a tree with the
/// same items.
#[verifier::rlimit(50)]
pub proof fn lemma_collapsed<K: Ord, V>(
    c0: Cells<K, V>,
    c1: Cells<K, V>,
    old_root: usize,
    g0: Shape<K>,
    model: Map<K, V>,
    id: usize,
    offset: int,
    next: Option<K>,
)
    requires
        total_order::<K>(),
        tree_ok(c0, old_root, g0, None, Some(old_root)),
        model_ok(c0, g0, model),
        c0[old_root]@.items.len() == 0,
        !c0[old_root]@.is_leaf(),
        collapsed_cells(c0, c1, old_root),
        place_ok(c0, g0, id, offset, next),
    ensures
        tree_ok(
            c1,
            c0[old_root]@.children[0],
            Shape { nodes: g0.nodes.remove(old_root), ..g0 },
            None,
            None,
        ),
        model_ok(c1, Shape { nodes: g0.nodes.remove(old_root), ..g0 }, model),
        place_ok(c1, Shape { nodes: g0.nodes.remove(old_root), ..g0 }, id, offset, next),
        evolves(c0, c1, g0.nodes, g0.nodes.remove(old_root)),
        c0[old_root]@.children[0] != old_root,
{
    lemma_order_laws::<K>();
    let g1 = Shape { nodes: g0.nodes.remove(old_root), ..g0 };
    let child = c0[old_root]@.children[0];
    assert(node_ok(c0, old_root, g0, old_root));
    assert(child_ok(c0, g0, old_root, 0));
    assert(node_ok(c0, old_root, g0, child));
    lemma_nodes_in_cells(c0, old_root, g0, None, Some(old_root));
    assert forall|y: usize| #[trigger] g1.nodes.contains(y) implies node_ok(c1, child, g1, y)
        && node_fill(c1, child, None, None, y) by {
        assert(node_ok(c0, old_root, g0, y));
        assert(node_fill(c0, old_root, None, Some(old_root), y));
        assert(c1[y]@.items == c0[y]@.items);
        assert(c1[y]@.children == c0[y]@.children);
        assert(node_local(c1, g1, y));
        assert forall|a: int| 0 <= a < c1[y]@.children.len() implies #[trigger] child_ok(c1, g1, y, a) by {
            assert(child_ok(c0, g0, y, a));
            let c = c0[y]@.children[a];
            assert(c != child);
            assert(c != old_root) by {
                assert(node_ok(c0, old_root, g0, c));
            }
        }
        if y != child {
            let q = c0[y]@.parent.unwrap();
            let a = choose|a: int| child_at(c0, q, a, y);
            assert(child_at(c0, q, a, y));
            assert(node_ok(c0, old_root, g0, q));
            if q == old_root {
                assert(c0[old_root]@.children.len() == 1);
                assert(false);
            }
            assert(child_ok(c0, g0, q, a));
            assert(g0.level[q] <= g0.level[old_root]);
            if q != child {
                let qq = c0[q]@.parent.unwrap();
                let b = choose|b: int| child_at(c0, qq, b, q);
                assert(child_at(c0, qq, b, q));
                assert(node_ok(c0, old_root, g0, qq));
                assert(child_ok(c0, g0, qq, b));
            }
            assert(child_at(c1, q, a, y));
            assert(g1.level[y] <= g1.level[child]);
        }
    }
    assert forall|y: usize, a: int| g1.nodes.contains(y) && 0 <= a < c1[y]@.items.len() implies model.contains_pair(
        (#[trigger] item_at(c1, y, a)).key,
        item_at(c1, y, a).value,
    ) by {
        assert(item_at(c1, y, a) == item_at(c0, y, a));
    }
    assert forall|k: K| #[trigger] model.dom().contains(k) implies exists|y: usize, a: int| #[trigger]
        holds(c1, g1, y, a, k) by {
        let (y0, a0) = choose|y: usize, a: int| holds(c0, g0, y, a, k);
        assert(holds(c0, g0, y0, a0, k));
        assert(item_at(c1, y0, a0) == item_at(c0, y0, a0));
        assert(holds(c1, g1, y0, a0, k));
    }
    assert(c1[id]@.items == c0[id]@.items);
    if offset < c0[id]@.items.len() {
        assert(item_at(c1, id, offset) == item_at(c0, id, offset));
    }
}

/// A leaf root without items is the whole tree, and the tree has no items.
pub proof fn lemma_emptied<K: Ord, V>(
    c0: Cells<K, V>,
    root: usize,
    g0: Shape<K>,
    model: Map<K, V>,
)
    requires
        total_order::<K>(),
        tree_ok(c0, root, g0, None, Some(root)),
        model_ok(c0, g0, model),
        c0[root]@.items.len() == 0,
        c0[root]@.is_leaf(),
    ensures
        g0.nodes == set![root],
        model == Map::<K, V>::empty(),
{
    assert(node_ok(c0, root, g0, root));
    assert forall|y: usize| g0.nodes.contains(y) implies y == root by {
        if y != root {
            assert(node_ok(c0, root, g0, y));
            let q = c0[y]@.parent.unwrap();
            let a = choose|a: int| child_at(c0, q, a, y);
            assert(child_at(c0, q, a, y));
            assert(node_ok(c0, root, g0, q));
            assert(child_ok(c0, g0, q, a));
        }
    }
    assert(g0.nodes =~= set![root]);
    assert forall|k: K| !model.dom().contains(k) by {
        if model.dom().contains(k) {
            let (y0, a0) = choose|y: usize, a: int| holds(c0, g0, y, a, k);
            assert(holds(c0, g0, y0, a0, k));
        }
    }
    assert(model =~= Map::<K, V>::empty());
}

} // verus!
