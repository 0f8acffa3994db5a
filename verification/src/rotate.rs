//! Rotations: a node that holds too few items takes one from a sibling
//! through the item that stands between them in the parent.

use vstd::prelude::*;
use crate::node::{NodeView, MIN_ITEMS};
use crate::order::{key_lt, lemma_order_laws, total_order};
use crate::tree::{
    child_at, child_ok, evolves, holds, in_range, item_at, lemma_children_distinct, model_ok,
    node_fill, node_local, node_ok, place_ok, tree_ok, Cells, Shape,
};

verus! {

/// The cells after the node `d`, the `i`-th child of `p`, took the item
/// between it and its right sibling `r` out of `p`, and the first item of
/// `r` took that item's place.
pub open spec fn left_cells<K, V>(
    c0: Cells<K, V>,
    c1: Cells<K, V>,
    p: usize,
    i: int,
    d: usize,
    r: usize,
) -> bool {
    let dv = c0[d]@;
    let rv = c0[r]@;
    let pv = c0[p]@;
    &&& c1.dom() == c0.dom()
    &&& c1[d]@ == (NodeView {
        parent: dv.parent,
        items: dv.items.push(pv.items[i]),
        children: if dv.is_leaf() {
            dv.children
        } else {
            dv.children.push(rv.children[0])
        },
    })
    &&& c1[r]@ == (NodeView {
        parent: rv.parent,
        items: rv.items.drop_first(),
        children: if rv.is_leaf() {
            rv.children
        } else {
            rv.children.drop_first()
        },
    })
    &&& c1[p]@ == (NodeView { items: pv.items.update(i, rv.items[0]), ..pv })
    &&& !dv.is_leaf() ==> c1[rv.children[0]]@ == (NodeView {
        parent: Some(d),
        ..c0[rv.children[0]]@
    })
    &&& forall|c: usize|
        c0.dom().contains(c) && c != d && c != r && c != p && (dv.is_leaf() || c != rv.children[0])
            ==> #[trigger] c1[c] == c0[c]
}

/// The shape after a rotation to the left.
pub open spec fn left_shape<K, V>(g0: Shape<K>, c0: Cells<K, V>, d: usize, r: usize) -> Shape<K> {
    let pivot = c0[r]@.items[0].key;
    Shape { lo: g0.lo.insert(r, Some(pivot)), hi: g0.hi.insert(d, Some(pivot)), ..g0 }
}

/// What holds before a rotation to the left.
pub open spec fn left_pre<K: Ord, V>(
    c0: Cells<K, V>,
    c1: Cells<K, V>,
    root: usize,
    g0: Shape<K>,
    p: usize,
    i: int,
    d: usize,
    r: usize,
) -> bool {
    &&& total_order::<K>()
    &&& tree_ok(c0, root, g0, None, Some(d))
    &&& g0.nodes.contains(p)
    &&& child_at(c0, p, i, d)
    &&& child_at(c0, p, i + 1, r)
    &&& c0[r]@.items.len() > MIN_ITEMS
    &&& c0[d]@.items.len() < MIN_ITEMS
    &&& left_cells(c0, c1, p, i, d, r)
}

/// Where a place of the tree is found after a rotation to the left.
pub open spec fn left_place<K, V>(
    c0: Cells<K, V>,
    p: usize,
    i: int,
    d: usize,
    r: usize,
    id: usize,
    offset: int,
) -> (usize, int) {
    if id == r {
        if offset == 0 {
            (p, i)
        } else {
            (r, offset - 1)
        }
    } else if id == p && offset == i {
        (d, c0[d]@.items.len() as int)
    } else {
        (id, offset)
    }
}

#[verifier::rlimit(50)]

proof fn lemma_left_basics<K: Ord, V>(
    c0: Cells<K, V>,
    c1: Cells<K, V>,
    root: usize,
    g0: Shape<K>,
    p: usize,
    i: int,
    d: usize,
    r: usize,
)
    requires
        left_pre(c0, c1, root, g0, p, i, d, r),
    ensures
        d != p,
        r != p,
        d != r,
        d != root,
        r != root,
        g0.nodes.contains(d),
        g0.nodes.contains(r),
        node_ok(c0, root, g0, d),
        node_ok(c0, root, g0, r),
        node_ok(c0, root, g0, p),
        child_ok(c0, g0, p, i),
        child_ok(c0, g0, p, i + 1),
        0 <= i < c0[p]@.items.len(),
        c0[d]@.is_leaf() == c0[r]@.is_leaf(),
        !c0[r]@.is_leaf() ==> child_ok(c0, g0, r, 0) && c0[r]@.children[0] != d && c0[r]@.children[0]
            != r && c0[r]@.children[0] != p && g0.nodes.contains(c0[r]@.children[0]),
        in_range(g0, p, c0[r]@.items[0].key),
        key_lt(c0[p]@.items[i].key, c0[r]@.items[0].key),
        forall|y: usize| g0.nodes.contains(y) ==> c0.dom().contains(y),
{
    lemma_order_laws::<K>();
    assert(node_ok(c0, root, g0, p));
    assert(child_ok(c0, g0, p, i));
    assert(child_ok(c0, g0, p, i + 1));
    assert(node_ok(c0, root, g0, d));
    assert(node_ok(c0, root, g0, r));
    assert(node_ok(c0, root, g0, root));
    lemma_children_distinct(c0, root, g0, p, i, i + 1);
    let rv = c0[r]@;
    assert(in_range(g0, r, rv.items[0].key));
    assert(in_range(g0, p, c0[p]@.items[i].key));
    if i + 1 < c0[p]@.items.len() {
        assert(in_range(g0, p, c0[p]@.items[i + 1].key));
    }
    if !rv.is_leaf() {
        assert(child_ok(c0, g0, r, 0));
    }
    crate::tree::lemma_nodes_in_cells(c0, root, g0, None, Some(d));
}

#[verifier::rlimit(50)]

proof fn lemma_left_node<K: Ord, V>(
    c0: Cells<K, V>,
    c1: Cells<K, V>,
    root: usize,
    g0: Shape<K>,
    p: usize,
    i: int,
    d: usize,
    r: usize,
    y: usize,
)
    requires
        left_pre(c0, c1, root, g0, p, i, d, r),
        g0.nodes.contains(y),
    ensures
        node_ok(c1, root, left_shape(g0, c0, d, r), y),
        node_fill(c1, root, None, None, y),
{
    lemma_left_basics(c0, c1, root, g0, p, i, d, r);
    lemma_order_laws::<K>();
    let g1 = left_shape(g0, c0, d, r);
    let dv = c0[d]@;
    let rv = c0[r]@;
    let pv = c0[p]@;
    let sep = pv.items[i];
    let pivot = rv.items[0];
    let yv = c0[y]@;
    let nv = c1[y]@;
    assert(node_ok(c0, root, g0, y));
    assert(node_fill(c0, root, None, Some(d), y));
    let moved = !dv.is_leaf() && y == rv.children[0];
    if y == d {
        assert forall|a: int| 0 <= a < nv.items.len() implies in_range(g1, y, (#[trigger] nv.items[a]).key) by {
            if a < dv.items.len() {
                assert(nv.items[a] == dv.items[a]);
                assert(in_range(g0, d, dv.items[a].key));
            }
        }
        assert forall|a: int, b: int| 0 <= a < b < nv.items.len() implies key_lt(
            #[trigger] nv.items[a].key,
            #[trigger] nv.items[b].key,
        ) by {
            assert(nv.items[a] == dv.items[a]);
            assert(in_range(g0, d, dv.items[a].key));
            if b < dv.items.len() {
                assert(nv.items[b] == dv.items[b]);
            }
        }
        assert(node_local(c1, g1, y));
        assert forall|a: int| 0 <= a < nv.children.len() implies #[trigger] child_ok(c1, g1, y, a) by {
            if a < dv.children.len() {
                let c = dv.children[a];
                assert(nv.children[a] == c);
                assert(child_ok(c0, g0, d, a));
                assert(c1[c] == c0[c]);
                if a < dv.items.len() {
                    assert(nv.items[a] == dv.items[a]);
                }
                if a > 0 {
                    assert(nv.items[a - 1] == dv.items[a - 1]);
                }
            } else {
                assert(child_ok(c0, g0, r, 0));
                assert(nv.items[a - 1] == sep);
            }
        }
        assert(child_at(c1, p, i, d));
    } else if y == r {
        assert forall|a: int| 0 <= a < nv.items.len() implies in_range(g1, y, (#[trigger] nv.items[a]).key) by {
            assert(nv.items[a] == rv.items[a + 1]);
            assert(in_range(g0, r, rv.items[a + 1].key));
            assert(key_lt(rv.items[0].key, rv.items[a + 1].key));
        }
        assert forall|a: int, b: int| 0 <= a < b < nv.items.len() implies key_lt(
            #[trigger] nv.items[a].key,
            #[trigger] nv.items[b].key,
        ) by {
            assert(nv.items[a] == rv.items[a + 1]);
            assert(nv.items[b] == rv.items[b + 1]);
        }
        assert(node_local(c1, g1, y));
        assert forall|a: int| 0 <= a < nv.children.len() implies #[trigger] child_ok(c1, g1, y, a) by {
            let c = rv.children[a + 1];
            assert(nv.children[a] == c);
            assert(child_ok(c0, g0, r, a + 1));
            lemma_children_distinct(c0, root, g0, r, 0, a + 1);
            assert(c1[c] == c0[c]);
            if a < nv.items.len() {
                assert(nv.items[a] == rv.items[a + 1]);
            }
            if a > 0 {
                assert(nv.items[a - 1] == rv.items[a]);
            }
        }
        assert(child_at(c1, p, i + 1, r));
    } else if y == p {
        assert forall|a: int| 0 <= a < nv.items.len() implies in_range(g1, y, (#[trigger] nv.items[a]).key) by {
            if a != i {
                assert(nv.items[a] == pv.items[a]);
                assert(in_range(g0, p, pv.items[a].key));
            }
        }
        assert forall|a: int, b: int| 0 <= a < b < nv.items.len() implies key_lt(
            #[trigger] nv.items[a].key,
            #[trigger] nv.items[b].key,
        ) by {
            if a != i {
                assert(nv.items[a] == pv.items[a]);
            } else {
                // pivot < items[i + 1] <= items[b]
                assert(in_range(g0, r, pivot.key));
                assert(key_lt(pivot.key, pv.items[i + 1].key));
                if i + 1 < b {
                    assert(key_lt(pv.items[i + 1].key, pv.items[b].key));
                }
            }
            if b != i {
                assert(nv.items[b] == pv.items[b]);
            } else {
                assert(key_lt(pv.items[a].key, pv.items[i].key));
            }
        }
        assert(node_local(c1, g1, y));
        assert forall|a: int| 0 <= a < nv.children.len() implies #[trigger] child_ok(c1, g1, y, a) by {
            let c = pv.children[a];
            assert(child_ok(c0, g0, p, a));
            if a != i && a != i + 1 {
                if a < i {
                    lemma_children_distinct(c0, root, g0, p, a, i);
                    lemma_children_distinct(c0, root, g0, p, a, i + 1);
                } else {
                    lemma_children_distinct(c0, root, g0, p, i, a);
                    lemma_children_distinct(c0, root, g0, p, i + 1, a);
                }
                assert(c1[c] == c0[c]);
            }
            if a < nv.items.len() && a != i {
                assert(nv.items[a] == pv.items[a]);
            }
            if a > 0 && a - 1 != i {
                assert(nv.items[a - 1] == pv.items[a - 1]);
            }
        }
        if p != root {
            let q = pv.parent.unwrap();
            let a = choose|a: int| child_at(c0, q, a, p);
            assert(child_at(c0, q, a, p));
            assert(node_ok(c0, root, g0, q));
            assert(child_ok(c0, g0, q, a));
            assert(c1[q]@.children == c0[q]@.children);
            assert(child_at(c1, q, a, p));
        }
    } else {
        if moved {
            assert(child_ok(c0, g0, r, 0));
            assert(nv == (NodeView { parent: Some(d), ..yv }));
            assert(child_at(c1, d, dv.children.len() as int, y));
        } else {
            assert(c1[y] == c0[y]);
        }
        assert(node_local(c1, g1, y));
        assert forall|a: int| 0 <= a < nv.children.len() implies #[trigger] child_ok(c1, g1, y, a) by {
            let c = nv.children[a];
            assert(child_ok(c0, g0, y, a));
            assert(c0[c]@.parent == Some(y));
            assert(c != d && c != r);
            if !dv.is_leaf() && c == rv.children[0] {
                assert(false);
            }
            assert(c1[c]@.parent == c0[c]@.parent);
        }
        if y != root && !moved {
            let q = yv.parent.unwrap();
            let a = choose|a: int| child_at(c0, q, a, y);
            assert(child_at(c0, q, a, y));
            assert(node_ok(c0, root, g0, q));
            if q == d {
                assert(child_at(c1, d, a, y));
            } else if q == r {
                assert(a != 0);
                assert(child_at(c1, r, a - 1, y));
            } else {
                assert(c1[q]@.children == c0[q]@.children);
                assert(child_at(c1, q, a, y));
            }
        }
    }
}

/// The tree is balanced after a rotation to the left.
pub proof fn lemma_left_tree<K: Ord, V>(
    c0: Cells<K, V>,
    c1: Cells<K, V>,
    root: usize,
    g0: Shape<K>,
    p: usize,
    i: int,
    d: usize,
    r: usize,
)
    requires
        left_pre(c0, c1, root, g0, p, i, d, r),
    ensures
        tree_ok(c1, root, left_shape(g0, c0, d, r), None, None),
        evolves(c0, c1, g0.nodes, left_shape(g0, c0, d, r).nodes),
{
    let g1 = left_shape(g0, c0, d, r);
    lemma_left_basics(c0, c1, root, g0, p, i, d, r);
    assert forall|y: usize| #[trigger] g1.nodes.contains(y) implies node_ok(c1, root, g1, y)
        && node_fill(c1, root, None, None, y) by {
        lemma_left_node(c0, c1, root, g0, p, i, d, r, y);
    }
}

/// Every item is found after a rotation to the left where `left_place` says.
pub proof fn lemma_left_item<K: Ord, V>(
    c0: Cells<K, V>,
    c1: Cells<K, V>,
    root: usize,
    g0: Shape<K>,
    p: usize,
    i: int,
    d: usize,
    r: usize,
    id: usize,
    offset: int,
)
    requires
        left_pre(c0, c1, root, g0, p, i, d, r),
        g0.nodes.contains(id),
        0 <= offset < c0[id]@.items.len(),
    ensures
        ({
            let place = left_place(c0, p, i, d, r, id, offset);
            &&& g0.nodes.contains(place.0)
            &&& 0 <= place.1 < c1[place.0]@.items.len()
            &&& item_at(c1, place.0, place.1) == item_at(c0, id, offset)
        }),
{
    lemma_left_basics(c0, c1, root, g0, p, i, d, r);
    if id != d && id != r && id != p {
        if !c0[d]@.is_leaf() && id == c0[r]@.children[0] {
        } else {
            assert(c1[id] == c0[id]);
        }
    }
}

/// The items of the tree are the same after a rotation to the left, and a
/// place keeps its next key.
#[verifier::rlimit(50)]
pub proof fn lemma_left_model<K: Ord, V>(
    c0: Cells<K, V>,
    c1: Cells<K, V>,
    root: usize,
    g0: Shape<K>,
    model: Map<K, V>,
    p: usize,
    i: int,
    d: usize,
    r: usize,
    id: usize,
    offset: int,
    next: Option<K>,
)
    requires
        left_pre(c0, c1, root, g0, p, i, d, r),
        model_ok(c0, g0, model),
        place_ok(c0, g0, id, offset, next),
    ensures
        model_ok(c1, left_shape(g0, c0, d, r), model),
        place_ok(
            c1,
            left_shape(g0, c0, d, r),
            left_place(c0, p, i, d, r, id, offset).0,
            left_place(c0, p, i, d, r, id, offset).1,
            next,
        ),
{
    let g1 = left_shape(g0, c0, d, r);
    lemma_left_basics(c0, c1, root, g0, p, i, d, r);
    let dlen = c0[d]@.items.len() as int;
    assert forall|y: usize, a: int| g1.nodes.contains(y) && 0 <= a < c1[y]@.items.len() implies model.contains_pair(
        (#[trigger] item_at(c1, y, a)).key,
        item_at(c1, y, a).value,
    ) by {
        let (y0, a0) = if y == d {
            if a < dlen {
                (d, a)
            } else {
                (p, i)
            }
        } else if y == r {
            (r, a + 1)
        } else if y == p {
            if a == i {
                (r, 0int)
            } else {
                (p, a)
            }
        } else {
            (y, a)
        };
        if y != d && y != r && y != p {
            lemma_left_item(c0, c1, root, g0, p, i, d, r, y, a);
            assert(c1[y]@.items == c0[y]@.items);
        }
        assert(item_at(c1, y, a) == item_at(c0, y0, a0));
    }
    assert forall|k: K| #[trigger] model.dom().contains(k) implies exists|y: usize, a: int| #[trigger]
        holds(c1, g1, y, a, k) by {
        let (y0, a0) = choose|y: usize, a: int| holds(c0, g0, y, a, k);
        assert(holds(c0, g0, y0, a0, k));
        lemma_left_item(c0, c1, root, g0, p, i, d, r, y0, a0);
        let place = left_place(c0, p, i, d, r, y0, a0);
        assert(holds(c1, g1, place.0, place.1, k));
    }
    if offset < c0[id]@.items.len() {
        lemma_left_item(c0, c1, root, g0, p, i, d, r, id, offset);
    } else {
        assert(id != p);
        if id == r {
            assert(c0[r]@.items.len() > 0);
        } else if id == d {
            assert(child_ok(c0, g0, p, i));
        } else {
            if !c0[d]@.is_leaf() && id == c0[r]@.children[0] {
                assert(c1[id]@.items == c0[id]@.items);
            } else {
                assert(c1[id] == c0[id]);
            }
        }
    }
}

/// The cells after the node `d`, the `i`-th child of `p`, took the item
/// between it and its left sibling `l` out of `p`, and the last item of `l`
/// took that item's place.
pub open spec fn right_cells<K, V>(
    c0: Cells<K, V>,
    c1: Cells<K, V>,
    p: usize,
    i: int,
    d: usize,
    l: usize,
) -> bool {
    let dv = c0[d]@;
    let lv = c0[l]@;
    let pv = c0[p]@;
    &&& c1.dom() == c0.dom()
    &&& c1[d]@ == (NodeView {
        parent: dv.parent,
        items: seq![pv.items[i - 1]] + dv.items,
        children: if dv.is_leaf() {
            dv.children
        } else {
            seq![lv.children.last()] + dv.children
        },
    })
    &&& c1[l]@ == (NodeView {
        parent: lv.parent,
        items: lv.items.drop_last(),
        children: if lv.is_leaf() {
            lv.children
        } else {
            lv.children.drop_last()
        },
    })
    &&& c1[p]@ == (NodeView { items: pv.items.update(i - 1, lv.items.last()), ..pv })
    &&& !dv.is_leaf() ==> c1[lv.children.last()]@ == (NodeView {
        parent: Some(d),
        ..c0[lv.children.last()]@
    })
    &&& forall|c: usize|
        c0.dom().contains(c) && c != d && c != l && c != p && (dv.is_leaf() || c
            != lv.children.last()) ==> #[trigger] c1[c] == c0[c]
}

/// The shape after a rotation to the right.
pub open spec fn right_shape<K, V>(g0: Shape<K>, c0: Cells<K, V>, d: usize, l: usize) -> Shape<K> {
    let pivot = c0[l]@.items.last().key;
    Shape { lo: g0.lo.insert(d, Some(pivot)), hi: g0.hi.insert(l, Some(pivot)), ..g0 }
}

/// What holds before a rotation to the right.
pub open spec fn right_pre<K: Ord, V>(
    c0: Cells<K, V>,
    c1: Cells<K, V>,
    root: usize,
    g0: Shape<K>,
    p: usize,
    i: int,
    d: usize,
    l: usize,
) -> bool {
    &&& total_order::<K>()
    &&& tree_ok(c0, root, g0, None, Some(d))
    &&& g0.nodes.contains(p)
    &&& child_at(c0, p, i, d)
    &&& child_at(c0, p, i - 1, l)
    &&& c0[l]@.items.len() > MIN_ITEMS
    &&& c0[d]@.items.len() < MIN_ITEMS
    &&& right_cells(c0, c1, p, i, d, l)
}

/// Where a place of the tree is found after a rotation to the right.
pub open spec fn right_place<K, V>(
    c0: Cells<K, V>,
    p: usize,
    i: int,
    d: usize,
    l: usize,
    id: usize,
    offset: int,
) -> (usize, int) {
    if id == d {
        (d, offset + 1)
    } else if id == l {
        if offset == c0[l]@.items.len() - 1 {
            (p, i - 1)
        } else if offset > c0[l]@.items.len() - 1 {
            (d, 0)
        } else {
            (l, offset)
        }
    } else if id == p && offset == i - 1 {
        (d, 0)
    } else {
        (id, offset)
    }
}

#[verifier::rlimit(50)]

proof fn lemma_right_basics<K: Ord, V>(
    c0: Cells<K, V>,
    c1: Cells<K, V>,
    root: usize,
    g0: Shape<K>,
    p: usize,
    i: int,
    d: usize,
    l: usize,
)
    requires
        right_pre(c0, c1, root, g0, p, i, d, l),
    ensures
        d != p,
        l != p,
        d != l,
        d != root,
        l != root,
        g0.nodes.contains(d),
        g0.nodes.contains(l),
        node_ok(c0, root, g0, d),
        node_ok(c0, root, g0, l),
        node_ok(c0, root, g0, p),
        child_ok(c0, g0, p, i),
        child_ok(c0, g0, p, i - 1),
        1 <= i <= c0[p]@.items.len(),
        c0[d]@.is_leaf() == c0[l]@.is_leaf(),
        !c0[l]@.is_leaf() ==> child_ok(c0, g0, l, c0[l]@.children.len() - 1) && c0[l]@.children.last()
            != d && c0[l]@.children.last() != l && c0[l]@.children.last() != p && g0.nodes.contains(
            c0[l]@.children.last(),
        ),
        in_range(g0, p, c0[l]@.items.last().key),
        key_lt(c0[l]@.items.last().key, c0[p]@.items[i - 1].key),
        forall|y: usize| g0.nodes.contains(y) ==> c0.dom().contains(y),
{
    lemma_order_laws::<K>();
    assert(node_ok(c0, root, g0, p));
    assert(child_ok(c0, g0, p, i));
    assert(child_ok(c0, g0, p, i - 1));
    assert(node_ok(c0, root, g0, d));
    assert(node_ok(c0, root, g0, l));
    assert(node_ok(c0, root, g0, root));
    lemma_children_distinct(c0, root, g0, p, i - 1, i);
    let lv = c0[l]@;
    assert(in_range(g0, l, lv.items[lv.items.len() - 1].key));
    assert(in_range(g0, p, c0[p]@.items[i - 1].key));
    if i - 1 > 0 {
        assert(in_range(g0, p, c0[p]@.items[i - 2].key));
    }
    if !lv.is_leaf() {
        assert(child_ok(c0, g0, l, lv.children.len() - 1));
    }
    crate::tree::lemma_nodes_in_cells(c0, root, g0, None, Some(d));
}

#[verifier::rlimit(50)]

proof fn lemma_right_node<K: Ord, V>(
    c0: Cells<K, V>,
    c1: Cells<K, V>,
    root: usize,
    g0: Shape<K>,
    p: usize,
    i: int,
    d: usize,
    l: usize,
    y: usize,
)
    requires
        right_pre(c0, c1, root, g0, p, i, d, l),
        g0.nodes.contains(y),
    ensures
        node_ok(c1, root, right_shape(g0, c0, d, l), y),
        node_fill(c1, root, None, None, y),
{
    lemma_right_basics(c0, c1, root, g0, p, i, d, l);
    lemma_order_laws::<K>();
    let g1 = right_shape(g0, c0, d, l);
    let dv = c0[d]@;
    let lv = c0[l]@;
    let pv = c0[p]@;
    let sep = pv.items[i - 1];
    let pivot = lv.items.last();
    let llen = lv.items.len() as int;
    let yv = c0[y]@;
    let nv = c1[y]@;
    assert(node_ok(c0, root, g0, y));
    assert(node_fill(c0, root, None, Some(d), y));
    let moved = !dv.is_leaf() && y == lv.children.last();
    if y == d {
        assert forall|a: int| 0 <= a < nv.items.len() implies in_range(g1, y, (#[trigger] nv.items[a]).key) by {
            if a > 0 {
                assert(nv.items[a] == dv.items[a - 1]);
                assert(in_range(g0, d, dv.items[a - 1].key));
            }
        }
        assert forall|a: int, b: int| 0 <= a < b < nv.items.len() implies key_lt(
            #[trigger] nv.items[a].key,
            #[trigger] nv.items[b].key,
        ) by {
            assert(nv.items[b] == dv.items[b - 1]);
            assert(in_range(g0, d, dv.items[b - 1].key));
            if a > 0 {
                assert(nv.items[a] == dv.items[a - 1]);
            }
        }
        assert(node_local(c1, g1, y));
        assert forall|a: int| 0 <= a < nv.children.len() implies #[trigger] child_ok(c1, g1, y, a) by {
            if a > 0 {
                let c = dv.children[a - 1];
                assert(nv.children[a] == c);
                assert(child_ok(c0, g0, d, a - 1));
                assert(c1[c] == c0[c]);
                if a < nv.items.len() {
                    assert(nv.items[a] == dv.items[a - 1]);
                }
                if a > 1 {
                    assert(nv.items[a - 1] == dv.items[a - 2]);
                }
                assert(nv.items[0] == sep);
            } else {
                assert(child_ok(c0, g0, l, lv.children.len() - 1));
                assert(nv.items[0] == sep);
            }
        }
        assert(child_at(c1, p, i, d));
    } else if y == l {
        assert forall|a: int| 0 <= a < nv.items.len() implies in_range(g1, y, (#[trigger] nv.items[a]).key) by {
            assert(nv.items[a] == lv.items[a]);
            assert(in_range(g0, l, lv.items[a].key));
            assert(key_lt(lv.items[a].key, lv.items[llen - 1].key));
        }
        assert forall|a: int, b: int| 0 <= a < b < nv.items.len() implies key_lt(
            #[trigger] nv.items[a].key,
            #[trigger] nv.items[b].key,
        ) by {
            assert(nv.items[a] == lv.items[a]);
            assert(nv.items[b] == lv.items[b]);
        }
        assert(node_local(c1, g1, y));
        assert forall|a: int| 0 <= a < nv.children.len() implies #[trigger] child_ok(c1, g1, y, a) by {
            let c = lv.children[a];
            assert(nv.children[a] == c);
            assert(child_ok(c0, g0, l, a));
            lemma_children_distinct(c0, root, g0, l, a, lv.children.len() - 1);
            assert(c1[c] == c0[c]);
            if a < nv.items.len() {
                assert(nv.items[a] == lv.items[a]);
            }
            if a > 0 {
                assert(nv.items[a - 1] == lv.items[a - 1]);
            }
        }
        assert(child_at(c1, p, i - 1, l));
    } else if y == p {
        assert forall|a: int| 0 <= a < nv.items.len() implies in_range(g1, y, (#[trigger] nv.items[a]).key) by {
            if a != i - 1 {
                assert(nv.items[a] == pv.items[a]);
                assert(in_range(g0, p, pv.items[a].key));
            }
        }
        assert forall|a: int, b: int| 0 <= a < b < nv.items.len() implies key_lt(
            #[trigger] nv.items[a].key,
            #[trigger] nv.items[b].key,
        ) by {
            if b != i - 1 {
                assert(nv.items[b] == pv.items[b]);
            } else {
                // items[a] <= items[i - 2] < pivot
                assert(in_range(g0, l, pivot.key));
                assert(key_lt(pv.items[i - 2].key, pivot.key));
                if a < i - 2 {
                    assert(key_lt(pv.items[a].key, pv.items[i - 2].key));
                }
            }
            if a != i - 1 {
                assert(nv.items[a] == pv.items[a]);
            } else {
                assert(key_lt(pv.items[i - 1].key, pv.items[b].key));
            }
        }
        assert(node_local(c1, g1, y));
        assert forall|a: int| 0 <= a < nv.children.len() implies #[trigger] child_ok(c1, g1, y, a) by {
            let c = pv.children[a];
            assert(child_ok(c0, g0, p, a));
            if a != i && a != i - 1 {
                if a < i - 1 {
                    lemma_children_distinct(c0, root, g0, p, a, i);
                    lemma_children_distinct(c0, root, g0, p, a, i - 1);
                } else {
                    lemma_children_distinct(c0, root, g0, p, i, a);
                    lemma_children_distinct(c0, root, g0, p, i - 1, a);
                }
                assert(c1[c] == c0[c]);
            }
            if a < nv.items.len() && a != i - 1 {
                assert(nv.items[a] == pv.items[a]);
            }
            if a > 0 && a - 1 != i - 1 {
                assert(nv.items[a - 1] == pv.items[a - 1]);
            }
        }
        if p != root {
            let q = pv.parent.unwrap();
            let a = choose|a: int| child_at(c0, q, a, p);
            assert(child_at(c0, q, a, p));
            assert(node_ok(c0, root, g0, q));
            assert(child_ok(c0, g0, q, a));
            assert(c1[q]@.children == c0[q]@.children);
            assert(child_at(c1, q, a, p));
        }
    } else {
        if moved {
            assert(child_ok(c0, g0, l, lv.children.len() - 1));
            assert(nv == (NodeView { parent: Some(d), ..yv }));
            assert(child_at(c1, d, 0, y));
        } else {
            assert(c1[y] == c0[y]);
        }
        assert(node_local(c1, g1, y));
        assert forall|a: int| 0 <= a < nv.children.len() implies #[trigger] child_ok(c1, g1, y, a) by {
            let c = nv.children[a];
            assert(child_ok(c0, g0, y, a));
            assert(c0[c]@.parent == Some(y));
            assert(c != d && c != l);
            if !dv.is_leaf() && c == lv.children.last() {
                assert(false);
            }
            assert(c1[c]@.parent == c0[c]@.parent);
        }
        if y != root && !moved {
            let q = yv.parent.unwrap();
            let a = choose|a: int| child_at(c0, q, a, y);
            assert(child_at(c0, q, a, y));
            assert(node_ok(c0, root, g0, q));
            if q == d {
                assert(child_at(c1, d, a + 1, y));
            } else if q == l {
                assert(a != lv.children.len() - 1);
                assert(child_at(c1, l, a, y));
            } else {
                assert(c1[q]@.children == c0[q]@.children);
                assert(child_at(c1, q, a, y));
            }
        }
    }
}

/// The tree is balanced after a rotation to the right.
pub proof fn lemma_right_tree<K: Ord, V>(
    c0: Cells<K, V>,
    c1: Cells<K, V>,
    root: usize,
    g0: Shape<K>,
    p: usize,
    i: int,
    d: usize,
    l: usize,
)
    requires
        right_pre(c0, c1, root, g0, p, i, d, l),
    ensures
        tree_ok(c1, root, right_shape(g0, c0, d, l), None, None),
        evolves(c0, c1, g0.nodes, right_shape(g0, c0, d, l).nodes),
{
    let g1 = right_shape(g0, c0, d, l);
    lemma_right_basics(c0, c1, root, g0, p, i, d, l);
    assert forall|y: usize| #[trigger] g1.nodes.contains(y) implies node_ok(c1, root, g1, y)
        && node_fill(c1, root, None, None, y) by {
        lemma_right_node(c0, c1, root, g0, p, i, d, l, y);
    }
}

/// Every item is found after a rotation to the right where `right_place`
/// says.
pub proof fn lemma_right_item<K: Ord, V>(
    c0: Cells<K, V>,
    c1: Cells<K, V>,
    root: usize,
    g0: Shape<K>,
    p: usize,
    i: int,
    d: usize,
    l: usize,
    id: usize,
    offset: int,
)
    requires
        right_pre(c0, c1, root, g0, p, i, d, l),
        g0.nodes.contains(id),
        0 <= offset < c0[id]@.items.len(),
    ensures
        ({
            let place = right_place(c0, p, i, d, l, id, offset);
            &&& g0.nodes.contains(place.0)
            &&& 0 <= place.1 < c1[place.0]@.items.len()
            &&& item_at(c1, place.0, place.1) == item_at(c0, id, offset)
        }),
{
    lemma_right_basics(c0, c1, root, g0, p, i, d, l);
    if id != d && id != l && id != p {
        if !c0[d]@.is_leaf() && id == c0[l]@.children.last() {
        } else {
            assert(c1[id] == c0[id]);
        }
    }
}

/// The items of the tree are the same after a rotation to the right, and a
/// place keeps its next key.
#[verifier::rlimit(50)]
pub proof fn lemma_right_model<K: Ord, V>(
    c0: Cells<K, V>,
    c1: Cells<K, V>,
    root: usize,
    g0: Shape<K>,
    model: Map<K, V>,
    p: usize,
    i: int,
    d: usize,
    l: usize,
    id: usize,
    offset: int,
    next: Option<K>,
)
    requires
        right_pre(c0, c1, root, g0, p, i, d, l),
        model_ok(c0, g0, model),
        place_ok(c0, g0, id, offset, next),
    ensures
        model_ok(c1, right_shape(g0, c0, d, l), model),
        place_ok(
            c1,
            right_shape(g0, c0, d, l),
            right_place(c0, p, i, d, l, id, offset).0,
            right_place(c0, p, i, d, l, id, offset).1,
            next,
        ),
{
    let g1 = right_shape(g0, c0, d, l);
    lemma_right_basics(c0, c1, root, g0, p, i, d, l);
    let llen = c0[l]@.items.len() as int;
    assert forall|y: usize, a: int| g1.nodes.contains(y) && 0 <= a < c1[y]@.items.len() implies model.contains_pair(
        (#[trigger] item_at(c1, y, a)).key,
        item_at(c1, y, a).value,
    ) by {
        let (y0, a0) = if y == d {
            if a > 0 {
                (d, a - 1)
            } else {
                (p, i - 1)
            }
        } else if y == l {
            (l, a)
        } else if y == p {
            if a == i - 1 {
                (l, llen - 1)
            } else {
                (p, a)
            }
        } else {
            (y, a)
        };
        if y != d && y != l && y != p {
            lemma_right_item(c0, c1, root, g0, p, i, d, l, y, a);
            assert(c1[y]@.items == c0[y]@.items);
        }
        assert(item_at(c1, y, a) == item_at(c0, y0, a0));
    }
    assert forall|k: K| #[trigger] model.dom().contains(k) implies exists|y: usize, a: int| #[trigger]
        holds(c1, g1, y, a, k) by {
        let (y0, a0) = choose|y: usize, a: int| holds(c0, g0, y, a, k);
        assert(holds(c0, g0, y0, a0, k));
        lemma_right_item(c0, c1, root, g0, p, i, d, l, y0, a0);
        let place = right_place(c0, p, i, d, l, y0, a0);
        assert(holds(c1, g1, place.0, place.1, k));
    }
    if offset < c0[id]@.items.len() {
        lemma_right_item(c0, c1, root, g0, p, i, d, l, id, offset);
    } else {
        assert(id != p);
        if id == l {
            assert(child_ok(c0, g0, p, i - 1));
            assert(item_at(c1, d, 0) == c0[p]@.items[i - 1]);
        } else if id == d {
        } else {
            if !c0[d]@.is_leaf() && id == c0[l]@.children.last() {
                assert(c1[id]@.items == c0[id]@.items);
            } else {
                assert(c1[id] == c0[id]);
            }
        }
    }
}

} // verus!
