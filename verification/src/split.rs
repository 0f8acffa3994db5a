//! Splitting a node that holds one item too many: the facts that carry the
//! shape of the tree over the split.

use vstd::prelude::*;
use crate::node::{sorted, NodeView, M};
use crate::order::{between, key_lt, lemma_order_laws, total_order};
use crate::tree::{
    child_at, child_ok, holds, in_range, item_at, lemma_children_distinct, model_ok, node_fill,
    node_local, node_ok, node_up, tree_ok, Cells, Shape,
};

verus! {

/// The offset of the item that leaves a node when it is split.
pub open spec fn median_offset() -> int {
    (M - 1) / 2
}

/// The cells after the node `x`, the `ix`-th child of `p`, was split: `x`
/// keeps the items before the median, the new node `right` holds those
/// after it and has become the parent of the children it took over, and the
/// median stands in `p` between the two.
pub open spec fn split_cells<K, V>(
    c0: Cells<K, V>,
    c3: Cells<K, V>,
    x: usize,
    p: usize,
    ix: int,
    right: usize,
) -> bool {
    let xv = c0[x]@;
    let pv = c0[p]@;
    let mo = median_offset();
    &&& !c0.dom().contains(right)
    &&& right != usize::MAX
    &&& c3.dom() == c0.dom().insert(right)
    &&& c3[x]@.parent == xv.parent
    &&& c3[x]@.items == xv.items.subrange(0, mo)
    &&& c3[right]@.parent == xv.parent
    &&& c3[right]@.items == xv.items.subrange(mo + 1, M as int)
    &&& c3[right]@.shaped()
    &&& c3[x]@.shaped()
    &&& if xv.is_leaf() {
        c3[x]@.is_leaf() && c3[right]@.is_leaf()
    } else {
        c3[x]@.children == xv.children.subrange(0, mo + 1) && c3[right]@.children
            == xv.children.subrange(mo + 1, M + 1)
    }
    &&& c3[p]@ == (NodeView {
        parent: pv.parent,
        items: pv.items.insert(ix, xv.items[mo]),
        children: pv.children.insert(ix + 1, right),
    })
    &&& forall|j: int|
        0 <= j < c3[right]@.children.len() ==> c3[#[trigger] c3[right]@.children[j]]@ == (NodeView {
            parent: Some(right),
            ..c0[c3[right]@.children[j]]@
        })
    &&& forall|c: usize|
        c0.dom().contains(c) && c != x && c != p && !c3[right]@.children.contains(c) ==> #[trigger] c3[c]
            == c0[c]
}

/// The shape after the split: `right` is a node of the tree on the level of
/// `x`, and the median has become the bound between the two.
pub open spec fn split_shape<K, V>(g0: Shape<K>, c0: Cells<K, V>, x: usize, right: usize) -> Shape<K> {
    let median = c0[x]@.items[median_offset()].key;
    Shape {
        nodes: g0.nodes.insert(right),
        lo: g0.lo.insert(right, Some(median)),
        hi: g0.hi.insert(x, Some(median)).insert(right, g0.hi[x]),
        level: g0.level.insert(right, g0.level[x]),
    }
}

/// What holds before the split of the node `x` under its parent `p`.
pub open spec fn split_pre<K: Ord, V>(
    c0: Cells<K, V>,
    c3: Cells<K, V>,
    root: usize,
    g0: Shape<K>,
    under: Option<usize>,
    x: usize,
    p: usize,
    ix: int,
    right: usize,
) -> bool {
    &&& total_order::<K>()
    &&& tree_ok(c0, root, g0, Some(x), under)
    &&& (under.is_none() || under == Some(p))
    &&& g0.nodes.contains(x)
    &&& c0[x]@.items.len() == M
    &&& c0[x]@.parent == Some(p)
    &&& child_at(c0, p, ix, x)
    &&& split_cells(c0, c3, x, p, ix, right)
}

/// Where an item stands after the split.
pub open spec fn split_place(x: usize, p: usize, ix: int, right: usize, id: usize, offset: int) -> (
    usize,
    int,
) {
    let mo = median_offset();
    if id == x {
        if offset < mo {
            (x, offset)
        } else if offset == mo {
            (p, ix)
        } else {
            (right, offset - mo - 1)
        }
    } else if id == p {
        if offset < ix {
            (p, offset)
        } else {
            (p, offset + 1)
        }
    } else {
        (id, offset)
    }
}

#[verifier::rlimit(50)]

proof fn lemma_split_basics<K: Ord, V>(
    c0: Cells<K, V>,
    c3: Cells<K, V>,
    root: usize,
    g0: Shape<K>,
    under: Option<usize>,
    x: usize,
    p: usize,
    ix: int,
    right: usize,
)
    requires
        split_pre(c0, c3, root, g0, under, x, p, ix, right),
    ensures
        x != p,
        x != root,
        x != right,
        p != right,
        !g0.nodes.contains(right),
        g0.nodes.contains(p),
        node_ok(c0, root, g0, x),
        node_ok(c0, root, g0, p),
        child_ok(c0, g0, p, ix),
        g0.level[x] + 1 == g0.level[p],
        in_range(g0, x, c0[x]@.items[median_offset()].key),
        in_range(g0, p, c0[x]@.items[median_offset()].key),
        forall|j: int| 0 <= j < ix ==> key_lt((#[trigger] c0[p]@.items[j]).key, c0[x]@.items[median_offset()].key),
        forall|j: int| ix <= j < c0[p]@.items.len() ==> key_lt(c0[x]@.items[median_offset()].key, (#[trigger] c0[p]@.items[j]).key),
        c0[p]@.children.len() == c0[p]@.items.len() + 1,
        c0[p]@.items.len() <= M - 1,
        forall|y: usize| g0.nodes.contains(y) ==> c0.dom().contains(y),
{
    lemma_order_laws::<K>();
    assert(node_ok(c0, root, g0, x));
    assert(node_ok(c0, root, g0, root));
    assert(node_ok(c0, root, g0, p));
    assert(node_fill(c0, root, Some(x), under, p));
    assert(child_ok(c0, g0, p, ix));
    assert(node_local(c0, g0, right) ==> c0.dom().contains(right));
    let m = c0[x]@.items[median_offset()];
    assert(in_range(g0, x, m.key));
    let pv = c0[p]@;
    if ix > 0 {
        assert(in_range(g0, p, pv.items[ix - 1].key));
    }
    if ix < pv.items.len() {
        assert(in_range(g0, p, pv.items[ix].key));
    }
    assert forall|j: int| 0 <= j < ix implies key_lt((#[trigger] pv.items[j]).key, m.key) by {
        assert(key_lt(pv.items[ix - 1].key, m.key));
        if j < ix - 1 {
            assert(key_lt(pv.items[j].key, pv.items[ix - 1].key));
        }
    }
    assert forall|j: int| ix <= j < pv.items.len() implies key_lt(m.key, (#[trigger] pv.items[j]).key) by {
        assert(key_lt(m.key, pv.items[ix].key));
        if ix < j {
            assert(key_lt(pv.items[ix].key, pv.items[j].key));
        }
    }
    assert forall|y: usize| g0.nodes.contains(y) implies c0.dom().contains(y) by {
        assert(node_ok(c0, root, g0, y));
    }
}

/// A node that is neither `x` nor `p` and was not taken over by `right` is
/// the same after the split.
#[verifier::rlimit(50)]
proof fn lemma_split_same<K: Ord, V>(
    c0: Cells<K, V>,
    c3: Cells<K, V>,
    root: usize,
    g0: Shape<K>,
    under: Option<usize>,
    x: usize,
    p: usize,
    ix: int,
    right: usize,
    c: usize,
)
    requires
        split_pre(c0, c3, root, g0, under, x, p, ix, right),
        g0.nodes.contains(c),
        c != x,
        c != p,
        c0[c]@.parent != Some(x) || exists|i: int| 0 <= i <= median_offset() && child_at(c0, x, i, c),
    ensures
        c3[c] == c0[c],
        !c3[right]@.children.contains(c),
{
    lemma_split_basics(c0, c3, root, g0, under, x, p, ix, right);
    let mo = median_offset();
    let xv = c0[x]@;
    let rc = c3[right]@.children;
    assert forall|j: int| 0 <= j < rc.len() implies rc[j] != c by {
        assert(!xv.is_leaf());
        assert(rc[j] == xv.children[mo + 1 + j]);
        assert(child_ok(c0, g0, x, mo + 1 + j));
        if c0[c]@.parent == Some(x) {
            let i = choose|i: int| 0 <= i <= median_offset() && child_at(c0, x, i, c);
            lemma_children_distinct(c0, root, g0, x, i, mo + 1 + j);
        }
    }
    assert(node_ok(c0, root, g0, c));
}

#[verifier::rlimit(50)]

proof fn lemma_split_x<K: Ord, V>(
    c0: Cells<K, V>,
    c3: Cells<K, V>,
    root: usize,
    g0: Shape<K>,
    under: Option<usize>,
    x: usize,
    p: usize,
    ix: int,
    right: usize,
)
    requires
        split_pre(c0, c3, root, g0, under, x, p, ix, right),
    ensures
        node_ok(c3, root, split_shape(g0, c0, x, right), x),
        node_fill(c3, root, Some(p), None, x),
{
    lemma_split_basics(c0, c3, root, g0, under, x, p, ix, right);
    lemma_order_laws::<K>();
    let g3 = split_shape(g0, c0, x, right);
    let mo = median_offset();
    let xv = c0[x]@;
    let nv = c3[x]@;
    assert forall|i: int| 0 <= i < nv.items.len() implies in_range(g3, x, (#[trigger] nv.items[i]).key) by {
        assert(nv.items[i] == xv.items[i]);
        assert(in_range(g0, x, xv.items[i].key));
        assert(key_lt(xv.items[i].key, xv.items[mo].key));
    }
    assert(sorted(nv.items)) by {
        assert forall|i: int, j: int| 0 <= i < j < nv.items.len() implies key_lt(
            #[trigger] nv.items[i].key,
            #[trigger] nv.items[j].key,
        ) by {
            assert(nv.items[i] == xv.items[i]);
            assert(nv.items[j] == xv.items[j]);
        }
    }
    assert(node_local(c3, g3, x));
    assert forall|i: int| 0 <= i < nv.children.len() implies #[trigger] child_ok(c3, g3, x, i) by {
        let c = nv.children[i];
        assert(c == xv.children[i]);
        assert(child_ok(c0, g0, x, i));
        assert(child_at(c0, x, i, c));
        lemma_split_same(c0, c3, root, g0, under, x, p, ix, right, c);
        if i < mo {
            assert(nv.items[i] == xv.items[i]);
        }
        if i > 0 {
            assert(nv.items[i - 1] == xv.items[i - 1]);
        }
    }
    assert(child_at(c3, p, ix, x));
}

#[verifier::rlimit(50)]

proof fn lemma_split_right<K: Ord, V>(
    c0: Cells<K, V>,
    c3: Cells<K, V>,
    root: usize,
    g0: Shape<K>,
    under: Option<usize>,
    x: usize,
    p: usize,
    ix: int,
    right: usize,
)
    requires
        split_pre(c0, c3, root, g0, under, x, p, ix, right),
    ensures
        node_ok(c3, root, split_shape(g0, c0, x, right), right),
        node_fill(c3, root, Some(p), None, right),
{
    lemma_split_basics(c0, c3, root, g0, under, x, p, ix, right);
    lemma_order_laws::<K>();
    let g3 = split_shape(g0, c0, x, right);
    let mo = median_offset();
    let xv = c0[x]@;
    let nv = c3[right]@;
    assert forall|i: int| 0 <= i < nv.items.len() implies in_range(g3, right, (#[trigger] nv.items[i]).key) by {
        assert(nv.items[i] == xv.items[mo + 1 + i]);
        assert(in_range(g0, x, xv.items[mo + 1 + i].key));
        assert(key_lt(xv.items[mo].key, xv.items[mo + 1 + i].key));
    }
    assert(sorted(nv.items)) by {
        assert forall|i: int, j: int| 0 <= i < j < nv.items.len() implies key_lt(
            #[trigger] nv.items[i].key,
            #[trigger] nv.items[j].key,
        ) by {
            assert(nv.items[i] == xv.items[mo + 1 + i]);
            assert(nv.items[j] == xv.items[mo + 1 + j]);
        }
    }
    assert(node_local(c3, g3, right));
    assert forall|i: int| 0 <= i < nv.children.len() implies #[trigger] child_ok(c3, g3, right, i) by {
        let c = nv.children[i];
        assert(c == xv.children[mo + 1 + i]);
        assert(child_ok(c0, g0, x, mo + 1 + i));
        assert(c3[c]@.parent == Some(right));
        if i < nv.items.len() {
            assert(nv.items[i] == xv.items[mo + 1 + i]);
        }
        if i > 0 {
            assert(nv.items[i - 1] == xv.items[mo + i]);
        }
    }
    assert(child_at(c3, p, ix + 1, right));
}

#[verifier::rlimit(50)]

proof fn lemma_split_parent<K: Ord, V>(
    c0: Cells<K, V>,
    c3: Cells<K, V>,
    root: usize,
    g0: Shape<K>,
    under: Option<usize>,
    x: usize,
    p: usize,
    ix: int,
    right: usize,
)
    requires
        split_pre(c0, c3, root, g0, under, x, p, ix, right),
    ensures
        node_ok(c3, root, split_shape(g0, c0, x, right), p),
        node_fill(c3, root, Some(p), None, p),
{
    lemma_split_basics(c0, c3, root, g0, under, x, p, ix, right);
    lemma_order_laws::<K>();
    let g3 = split_shape(g0, c0, x, right);
    let mo = median_offset();
    let xv = c0[x]@;
    let pv = c0[p]@;
    let nv = c3[p]@;
    let m = xv.items[mo];
    assert forall|i: int| 0 <= i < nv.items.len() implies in_range(g3, p, (#[trigger] nv.items[i]).key) by {
        if i < ix {
            assert(nv.items[i] == pv.items[i]);
            assert(in_range(g0, p, pv.items[i].key));
        } else if i == ix {
        } else {
            assert(nv.items[i] == pv.items[i - 1]);
            assert(in_range(g0, p, pv.items[i - 1].key));
        }
    }
    assert(sorted(nv.items)) by {
        assert forall|i: int, j: int| 0 <= i < j < nv.items.len() implies key_lt(
            #[trigger] nv.items[i].key,
            #[trigger] nv.items[j].key,
        ) by {
            if i < ix {
                assert(nv.items[i] == pv.items[i]);
            } else if i > ix {
                assert(nv.items[i] == pv.items[i - 1]);
            }
            if j < ix {
                assert(nv.items[j] == pv.items[j]);
            } else if j > ix {
                assert(nv.items[j] == pv.items[j - 1]);
            }
        }
    }
    assert(node_local(c3, g3, p));
    assert forall|i: int| 0 <= i < nv.children.len() implies #[trigger] child_ok(c3, g3, p, i) by {
        let c = nv.children[i];
        if i <= ix {
            assert(c == pv.children[i]);
            assert(child_ok(c0, g0, p, i));
            if i < ix {
                lemma_children_distinct(c0, root, g0, p, i, ix);
                lemma_split_same(c0, c3, root, g0, under, x, p, ix, right, c);
                assert(nv.items[i] == pv.items[i]);
            }
            if i > 0 {
                assert(nv.items[i - 1] == pv.items[i - 1]);
            }
        } else if i == ix + 1 {
            assert(nv.items[ix] == m);
            if i < nv.items.len() {
                assert(nv.items[i] == pv.items[ix]);
            }
        } else {
            assert(c == pv.children[i - 1]);
            assert(child_ok(c0, g0, p, i - 1));
            lemma_children_distinct(c0, root, g0, p, ix, i - 1);
            lemma_split_same(c0, c3, root, g0, under, x, p, ix, right, c);
            assert(nv.items[i - 1] == pv.items[i - 2]);
            if i < nv.items.len() {
                assert(nv.items[i] == pv.items[i - 1]);
            }
        }
    }
    if p != root {
        let pp = c0[p]@.parent.unwrap();
        let i = choose|i: int| child_at(c0, pp, i, p);
        assert(child_at(c0, pp, i, p));
        assert(node_ok(c0, root, g0, pp));
        assert(child_ok(c0, g0, pp, i));
        assert(node_ok(c0, root, g0, pp));
        if pp != root {
            let q = c0[pp]@.parent.unwrap();
            let iq = choose|iq: int| child_at(c0, q, iq, pp);
            assert(child_at(c0, q, iq, pp));
            assert(node_ok(c0, root, g0, q));
            assert(child_ok(c0, g0, q, iq));
            assert(q != x);
        }
        lemma_split_same(c0, c3, root, g0, under, x, p, ix, right, pp);
        assert(child_at(c3, pp, i, p));
    }
}

#[verifier::rlimit(50)]

proof fn lemma_split_other<K: Ord, V>(
    c0: Cells<K, V>,
    c3: Cells<K, V>,
    root: usize,
    g0: Shape<K>,
    under: Option<usize>,
    x: usize,
    p: usize,
    ix: int,
    right: usize,
    y: usize,
)
    requires
        split_pre(c0, c3, root, g0, under, x, p, ix, right),
        g0.nodes.contains(y),
        y != x,
        y != p,
    ensures
        node_ok(c3, root, split_shape(g0, c0, x, right), y),
        node_fill(c3, root, Some(p), None, y),
        c3[y]@.items == c0[y]@.items,
{
    lemma_split_basics(c0, c3, root, g0, under, x, p, ix, right);
    lemma_order_laws::<K>();
    let g3 = split_shape(g0, c0, x, right);
    let mo = median_offset();
    let xv = c0[x]@;
    let yv = c0[y]@;
    let nv = c3[y]@;
    assert(node_ok(c0, root, g0, y));
    assert(node_fill(c0, root, Some(x), under, y));
    let rc = c3[right]@.children;
    let moved = rc.contains(y);
    if moved {
        let j = choose|j: int| 0 <= j < rc.len() && rc[j] == y;
        assert(rc[j] == y);
        assert(!xv.is_leaf());
        assert(y == xv.children[mo + 1 + j]);
        assert(child_ok(c0, g0, x, mo + 1 + j));
        assert(y != root);
        assert(nv == (NodeView { parent: Some(right), ..yv }));
        assert(child_at(c3, right, j, y));
    } else {
        assert(c3[y] == c0[y]);
    }
    assert(nv.items == yv.items);
    assert(nv.children == yv.children);
    assert(node_local(c3, g3, y));
    assert forall|i: int| 0 <= i < nv.children.len() implies #[trigger] child_ok(c3, g3, y, i) by {
        let c = nv.children[i];
        assert(child_ok(c0, g0, y, i));
        assert(c0[c]@.parent == Some(y));
        assert(c != x);
        if c != p {
            lemma_split_same(c0, c3, root, g0, under, x, p, ix, right, c);
        }
    }
    assert(node_ok(c0, root, g0, root));
    assert(g3.level[y] <= g3.level[root]);
    if y == root {
        assert(!moved);
        assert(c3[y]@.parent.is_none());
    } else {
        assert(c3[y]@.parent.is_some());
        assert(g3.nodes.contains(c3[y]@.parent.unwrap()));
    }
    assert(y != root ==> exists|i: int| #[trigger] child_at(c3, c3[y]@.parent.unwrap(), i, y)) by {
        if y != root && !moved {
            let q = yv.parent.unwrap();
            let i = choose|i: int| child_at(c0, q, i, y);
            assert(child_at(c0, q, i, y));
            if q == p {
                if i <= ix {
                    assert(child_at(c3, p, i, y));
                } else {
                    assert(child_at(c3, p, i + 1, y));
                }
            } else if q == x {
                assert(!xv.is_leaf());
                if i > mo {
                    assert(rc[i - mo - 1] == y);
                    assert(false);
                }
                assert(child_at(c3, x, i, y));
            } else {
                assert(node_ok(c0, root, g0, q));
                if rc.contains(q) {
                    let j = choose|j: int| 0 <= j < rc.len() && rc[j] == q;
                    assert(c3[rc[j]]@ == (NodeView { parent: Some(right), ..c0[rc[j]]@ }));
                } else {
                    assert(c3[q] == c0[q]);
                }
                assert(child_at(c3, q, i, y));
            }
        }
    }
    assert(node_up(c3, root, g3, y));
}

/// The tree is in order after the split, but that the parent may now hold one
/// item too many.
pub proof fn lemma_split_tree<K: Ord, V>(
    c0: Cells<K, V>,
    c3: Cells<K, V>,
    root: usize,
    g0: Shape<K>,
    under: Option<usize>,
    x: usize,
    p: usize,
    ix: int,
    right: usize,
)
    requires
        split_pre(c0, c3, root, g0, under, x, p, ix, right),
    ensures
        tree_ok(c3, root, split_shape(g0, c0, x, right), Some(p), None),
{
    let g3 = split_shape(g0, c0, x, right);
    lemma_split_basics(c0, c3, root, g0, under, x, p, ix, right);
    assert forall|y: usize| #[trigger] g3.nodes.contains(y) implies node_ok(c3, root, g3, y)
        && node_fill(c3, root, Some(p), None, y) by {
        if y == x {
            lemma_split_x(c0, c3, root, g0, under, x, p, ix, right);
        } else if y == right {
            lemma_split_right(c0, c3, root, g0, under, x, p, ix, right);
        } else if y == p {
            lemma_split_parent(c0, c3, root, g0, under, x, p, ix, right);
        } else {
            lemma_split_other(c0, c3, root, g0, under, x, p, ix, right, y);
        }
    }
}

/// Every item stands after the split where `split_place` says.
pub proof fn lemma_split_item<K: Ord, V>(
    c0: Cells<K, V>,
    c3: Cells<K, V>,
    root: usize,
    g0: Shape<K>,
    under: Option<usize>,
    x: usize,
    p: usize,
    ix: int,
    right: usize,
    id: usize,
    offset: int,
)
    requires
        split_pre(c0, c3, root, g0, under, x, p, ix, right),
        g0.nodes.contains(id),
        0 <= offset < c0[id]@.items.len(),
    ensures
        ({
            let place = split_place(x, p, ix, right, id, offset);
            &&& split_shape(g0, c0, x, right).nodes.contains(place.0)
            &&& 0 <= place.1 < c3[place.0]@.items.len()
            &&& item_at(c3, place.0, place.1) == item_at(c0, id, offset)
        }),
{
    lemma_split_basics(c0, c3, root, g0, under, x, p, ix, right);
    if id != x && id != p {
        lemma_split_other(c0, c3, root, g0, under, x, p, ix, right, id);
    }
}

/// The items of the tree are the same after the split.
#[verifier::rlimit(50)]
pub proof fn lemma_split_model<K: Ord, V>(
    c0: Cells<K, V>,
    c3: Cells<K, V>,
    root: usize,
    g0: Shape<K>,
    under: Option<usize>,
    model: Map<K, V>,
    x: usize,
    p: usize,
    ix: int,
    right: usize,
)
    requires
        split_pre(c0, c3, root, g0, under, x, p, ix, right),
        model_ok(c0, g0, model),
    ensures
        model_ok(c3, split_shape(g0, c0, x, right), model),
{
    let g3 = split_shape(g0, c0, x, right);
    let mo = median_offset();
    lemma_split_basics(c0, c3, root, g0, under, x, p, ix, right);
    assert forall|id: usize, i: int| g3.nodes.contains(id) && 0 <= i < c3[id]@.items.len() implies model.contains_pair(
        (#[trigger] item_at(c3, id, i)).key,
        item_at(c3, id, i).value,
    ) by {
        // the place that the item came from
        let (id0, i0) = if id == x {
            (x, i)
        } else if id == right {
            (x, i + mo + 1)
        } else if id == p {
            if i < ix {
                (p, i)
            } else if i == ix {
                (x, mo)
            } else {
                (p, i - 1)
            }
        } else {
            (id, i)
        };
        if id != x && id != p && id != right {
            lemma_split_other(c0, c3, root, g0, under, x, p, ix, right, id);
        }
        assert(item_at(c3, id, i) == item_at(c0, id0, i0));
    }
    assert forall|k: K| #[trigger] model.dom().contains(k) implies exists|id: usize, i: int| #[trigger]
        holds(c3, g3, id, i, k) by {
        let (id0, i0) = choose|id: usize, i: int| holds(c0, g0, id, i, k);
        assert(holds(c0, g0, id0, i0, k));
        lemma_split_item(c0, c3, root, g0, under, x, p, ix, right, id0, i0);
        let place = split_place(x, p, ix, right, id0, i0);
        assert(holds(c3, g3, place.0, place.1, k));
    }
}

/// The split touches only nodes of the tree and one cell that was vacant.
pub proof fn lemma_split_evolves<K: Ord, V>(
    c0: Cells<K, V>,
    c3: Cells<K, V>,
    root: usize,
    g0: Shape<K>,
    under: Option<usize>,
    x: usize,
    p: usize,
    ix: int,
    right: usize,
)
    requires
        split_pre(c0, c3, root, g0, under, x, p, ix, right),
    ensures
        crate::tree::evolves(c0, c3, g0.nodes, split_shape(g0, c0, x, right).nodes),
{
    lemma_split_basics(c0, c3, root, g0, under, x, p, ix, right);
    let g3 = split_shape(g0, c0, x, right);
    let rc = c3[right]@.children;
    assert forall|id: usize| c0.dom().contains(id) && !g0.nodes.contains(id) implies #[trigger] c3.dom().contains(
        id,
    ) && c3[id] == c0[id] by {
        assert forall|j: int| 0 <= j < rc.len() implies rc[j] != id by {
            assert(!c0[x]@.is_leaf());
            assert(rc[j] == c0[x]@.children[median_offset() + 1 + j]);
            assert(child_ok(c0, g0, x, median_offset() + 1 + j));
        }
        assert(!rc.contains(id));
    }
}

} // verus!
