//! Insertion: putting an item into a leaf and splitting the nodes that hold
//! one item too many on the way up.

use vstd::prelude::*;
use crate::addr::{Address, Offset};
use crate::children::children_of;
use crate::map::BTreeMap;
use crate::node::{Item, Node, NodeView, M, MIN_ITEMS};
use crate::order::{key_lt, lemma_order_laws, total_order};
use crate::slab::{Slab, SlabView};
use crate::split::{
    lemma_split_item, lemma_split_model, lemma_split_tree, median_offset, split_cells, split_place,
    split_pre, split_shape,
};
use crate::tree::{
    child_at, child_ok, evolves, holds, in_range, item_at, lemma_unique, model_ok, node_children,
    node_fill, node_local, node_ok, tree_ok, Cells, Shape,
};

verus! {

/// The node at `id`, for writing.
pub(crate) fn node_mut<'a, K, V, S: Slab<Node<K, V>>>(store: &'a mut S, id: usize) -> (node: &'a mut Node<
    K,
    V,
>)
    requires
        old(store).wf(),
        old(store).cells().dom().contains(id),
    ensures
        *node == old(store).cells()[id],
        final(store).wf(),
        final(store).cells() == old(store).cells().insert(id, *final(node)),
{
    store.get_mut(id).unwrap()
}

/// The cells after an item was put into the leaf `id` at `offset`.
pub open spec fn leaf_put<K, V>(
    c0: Cells<K, V>,
    c1: Cells<K, V>,
    id: usize,
    offset: int,
    item: Item<K, V>,
) -> bool {
    &&& c1.dom() == c0.dom()
    &&& c1[id]@ == (NodeView { items: c0[id]@.items.insert(offset, item), ..c0[id]@ })
    &&& forall|c: usize| c0.dom().contains(c) && c != id ==> #[trigger] c1[c] == c0[c]
}

/// What holds before an item with a new key is put into a leaf at the place
/// where the key belongs.
pub open spec fn leaf_put_pre<K: Ord, V>(
    c0: Cells<K, V>,
    c1: Cells<K, V>,
    root: usize,
    g: Shape<K>,
    id: usize,
    offset: int,
    item: Item<K, V>,
) -> bool {
    &&& total_order::<K>()
    &&& tree_ok(c0, root, g, None, None)
    &&& g.nodes.contains(id)
    &&& c0[id]@.is_leaf()
    &&& 0 <= offset <= c0[id]@.items.len()
    &&& in_range(g, id, item.key)
    &&& forall|j: int| 0 <= j < offset ==> key_lt((#[trigger] c0[id]@.items[j]).key, item.key)
    &&& forall|j: int|
        offset <= j < c0[id]@.items.len() ==> key_lt(item.key, (#[trigger] c0[id]@.items[j]).key)
    &&& leaf_put(c0, c1, id, offset, item)
}

proof fn lemma_leaf_put_leaf<K: Ord, V>(
    c0: Cells<K, V>,
    c1: Cells<K, V>,
    root: usize,
    g: Shape<K>,
    id: usize,
    offset: int,
    item: Item<K, V>,
)
    requires
        leaf_put_pre(c0, c1, root, g, id, offset, item),
    ensures
        node_local(c1, g, id),
        node_children(c1, g, id),
{
    lemma_order_laws::<K>();
    let old_items = c0[id]@.items;
    let new_items = c1[id]@.items;
    assert(node_ok(c0, root, g, id));
    assert forall|i: int| 0 <= i < new_items.len() implies in_range(g, id, (#[trigger] new_items[i]).key) by {
        if i < offset {
            assert(new_items[i] == old_items[i]);
            assert(in_range(g, id, old_items[i].key));
        } else if i > offset {
            assert(new_items[i] == old_items[i - 1]);
            assert(in_range(g, id, old_items[i - 1].key));
        }
    }
    assert forall|i: int, j: int| 0 <= i < j < new_items.len() implies key_lt(
        #[trigger] new_items[i].key,
        #[trigger] new_items[j].key,
    ) by {
        if i < offset {
            assert(new_items[i] == old_items[i]);
        } else if i > offset {
            assert(new_items[i] == old_items[i - 1]);
        }
        if j < offset {
            assert(new_items[j] == old_items[j]);
        } else if j > offset {
            assert(new_items[j] == old_items[j - 1]);
        }
    }
}

#[verifier::rlimit(50)]

proof fn lemma_leaf_put_node<K: Ord, V>(
    c0: Cells<K, V>,
    c1: Cells<K, V>,
    root: usize,
    g: Shape<K>,
    id: usize,
    offset: int,
    item: Item<K, V>,
    y: usize,
)
    requires
        leaf_put_pre(c0, c1, root, g, id, offset, item),
        g.nodes.contains(y),
    ensures
        node_ok(c1, root, g, y),
        node_fill(c1, root, Some(id), None, y),
{
    assert(node_ok(c0, root, g, y));
    assert(node_fill(c0, root, None, None, y));
    assert(node_ok(c0, root, g, id));
    if y == id {
        lemma_leaf_put_leaf(c0, c1, root, g, id, offset, item);
    } else {
        assert(c1[y] == c0[y]);
        assert forall|i: int| 0 <= i < c1[y]@.children.len() implies #[trigger] child_ok(c1, g, y, i) by {
            assert(child_ok(c0, g, y, i));
        }
    }
    if y != root {
        let q = c0[y]@.parent.unwrap();
        let i = choose|i: int| child_at(c0, q, i, y);
        assert(child_at(c0, q, i, y));
        assert(q != id);
        assert(child_at(c1, q, i, y));
    }
}

/// Putting an item with a new key into the leaf and at the place where the
/// key belongs leaves the tree in order, but that the leaf may now hold one
/// item too many.
pub proof fn lemma_leaf_put<K: Ord, V>(
    c0: Cells<K, V>,
    c1: Cells<K, V>,
    root: usize,
    g: Shape<K>,
    model: Map<K, V>,
    id: usize,
    offset: int,
    item: Item<K, V>,
)
    requires
        leaf_put_pre(c0, c1, root, g, id, offset, item),
        model_ok(c0, g, model),
        !model.dom().contains(item.key),
    ensures
        tree_ok(c1, root, g, Some(id), None),
        model_ok(c1, g, model.insert(item.key, item.value)),
        holds(c1, g, id, offset, item.key),
{
    assert forall|y: usize| #[trigger] g.nodes.contains(y) implies node_ok(c1, root, g, y) && node_fill(
        c1,
        root,
        Some(id),
        None,
        y,
    ) by {
        lemma_leaf_put_node(c0, c1, root, g, id, offset, item, y);
    }
    lemma_leaf_put_model(c0, c1, root, g, model, id, offset, item);
}

#[verifier::rlimit(50)]

proof fn lemma_leaf_put_model<K: Ord, V>(
    c0: Cells<K, V>,
    c1: Cells<K, V>,
    root: usize,
    g: Shape<K>,
    model: Map<K, V>,
    id: usize,
    offset: int,
    item: Item<K, V>,
)
    requires
        leaf_put_pre(c0, c1, root, g, id, offset, item),
        model_ok(c0, g, model),
        !model.dom().contains(item.key),
    ensures
        model_ok(c1, g, model.insert(item.key, item.value)),
        holds(c1, g, id, offset, item.key),
{
    assert(node_ok(c0, root, g, id));
    let m1 = model.insert(item.key, item.value);
    assert forall|y: usize, i: int| g.nodes.contains(y) && 0 <= i < c1[y]@.items.len() implies m1.contains_pair(
        (#[trigger] item_at(c1, y, i)).key,
        item_at(c1, y, i).value,
    ) by {
        assert(node_ok(c0, root, g, y));
        if y == id {
            if i < offset {
                assert(item_at(c1, y, i) == item_at(c0, y, i));
            } else if i > offset {
                assert(item_at(c1, y, i) == item_at(c0, y, i - 1));
            }
        } else {
            assert(item_at(c1, y, i) == item_at(c0, y, i));
        }
    }
    assert forall|k: K| #[trigger] m1.dom().contains(k) implies exists|y: usize, i: int| #[trigger]
        holds(c1, g, y, i, k) by {
        if k == item.key {
            assert(holds(c1, g, id, offset, k));
        } else {
            let (y0, i0) = choose|y: usize, i: int| holds(c0, g, y, i, k);
            assert(holds(c0, g, y0, i0, k));
            assert(node_ok(c0, root, g, y0));
            if y0 == id {
                if i0 < offset {
                    assert(item_at(c1, id, i0) == item_at(c0, id, i0));
                    assert(holds(c1, g, id, i0, k));
                } else {
                    assert(item_at(c1, id, i0 + 1) == item_at(c0, id, i0));
                    assert(holds(c1, g, id, i0 + 1, k));
                }
            } else {
                assert(item_at(c1, y0, i0) == item_at(c0, y0, i0));
                assert(holds(c1, g, y0, i0, k));
            }
        }
    }
}

/// The cells after the item at `offset` of the node `id` gave its place to an
/// item with the same key.
pub open spec fn item_replaced<K, V>(
    c0: Cells<K, V>,
    c1: Cells<K, V>,
    id: usize,
    offset: int,
    item: Item<K, V>,
) -> bool {
    &&& c1.dom() == c0.dom()
    &&& c1[id]@ == (NodeView { items: c0[id]@.items.update(offset, item), ..c0[id]@ })
    &&& forall|c: usize| c0.dom().contains(c) && c != id ==> #[trigger] c1[c] == c0[c]
}

/// An item that takes the place of an item with the same key leaves the tree
/// as it is; the key is bound to the value of the new item.
#[verifier::rlimit(50)]
pub proof fn lemma_item_replaced<K: Ord, V>(
    c0: Cells<K, V>,
    c1: Cells<K, V>,
    root: usize,
    g: Shape<K>,
    m0: Map<K, V>,
    id: usize,
    offset: int,
    item: Item<K, V>,
)
    requires
        total_order::<K>(),
        tree_ok(c0, root, g, None, None),
        model_ok(c0, g, m0),
        g.nodes.contains(id),
        0 <= offset < c0[id]@.items.len(),
        c0[id]@.items[offset].key == item.key,
        item_replaced(c0, c1, id, offset, item),
    ensures
        tree_ok(c1, root, g, None, None),
        model_ok(c1, g, m0.insert(item.key, item.value)),
        evolves(c0, c1, g.nodes, g.nodes),
        m0.dom().contains(item.key),
{
    let key = item.key;
    let value = item.value;
    let m1 = m0.insert(key, value);
    crate::tree::lemma_nodes_in_cells(c0, root, g, None, None);
    let held = item_at(c0, id, offset);
    assert(m0.contains_pair(held.key, held.value));
    assert forall|y: usize| #[trigger] g.nodes.contains(y) implies node_ok(c1, root, g, y)
        && node_fill(c1, root, None, None, y) by {
        assert(node_ok(c0, root, g, y));
        assert(node_fill(c0, root, None, None, y));
        if y == id {
            let old_items = c0[y]@.items;
            let new_items = c1[y]@.items;
            assert forall|i: int| 0 <= i < new_items.len() implies in_range(
                g,
                y,
                (#[trigger] new_items[i]).key,
            ) by {
                assert(new_items[i].key == old_items[i].key);
                assert(in_range(g, y, old_items[i].key));
            }
            assert forall|i: int, j: int| 0 <= i < j < new_items.len() implies key_lt(
                #[trigger] new_items[i].key,
                #[trigger] new_items[j].key,
            ) by {
                assert(new_items[i].key == old_items[i].key);
                assert(new_items[j].key == old_items[j].key);
            }
            assert forall|i: int| 0 <= i < c1[y]@.children.len() implies #[trigger] child_ok(
                c1,
                g,
                y,
                i,
            ) by {
                assert(child_ok(c0, g, y, i));
                if i < new_items.len() {
                    assert(new_items[i].key == old_items[i].key);
                }
                if i > 0 {
                    assert(new_items[i - 1].key == old_items[i - 1].key);
                }
            }
        } else {
            assert(c1[y] == c0[y]);
            assert forall|i: int| 0 <= i < c1[y]@.children.len() implies #[trigger] child_ok(
                c1,
                g,
                y,
                i,
            ) by {
                assert(child_ok(c0, g, y, i));
            }
        }
        if y != root {
            let q = c0[y]@.parent.unwrap();
            let i = choose|i: int| child_at(c0, q, i, y);
            assert(child_at(c0, q, i, y));
            assert(child_at(c1, q, i, y));
        }
    }
    assert forall|y: usize, i: int| g.nodes.contains(y) && 0 <= i < c1[y]@.items.len() implies m1.contains_pair(
        (#[trigger] item_at(c1, y, i)).key,
        item_at(c1, y, i).value,
    ) by {
        if y == id && i == offset {
        } else {
            assert(item_at(c1, y, i) == item_at(c0, y, i));
            assert(holds(c0, g, y, i, item_at(c0, y, i).key));
            if item_at(c0, y, i).key == key {
                assert(holds(c0, g, id, offset, key));
                lemma_unique(c0, root, g, None, None, y, i, id, offset, key);
            }
        }
    }
    assert forall|k: K| #[trigger] m1.dom().contains(k) implies exists|y: usize, i: int| #[trigger]
        holds(c1, g, y, i, k) by {
        if k == key {
            assert(holds(c1, g, id, offset, k));
        } else {
            let (y0, i0) = choose|y: usize, i: int| holds(c0, g, y, i, k);
            assert(holds(c0, g, y0, i0, k));
            assert(item_at(c1, y0, i0).key == item_at(c0, y0, i0).key);
            assert(holds(c1, g, y0, i0, k));
        }
    }
}

/// The cells and the shape after an empty node was put above the root.
pub open spec fn grown<K, V>(
    c0: Cells<K, V>,
    c1: Cells<K, V>,
    g0: Shape<K>,
    g1: Shape<K>,
    old_root: usize,
    new_root: usize,
) -> bool {
    &&& !c0.dom().contains(new_root)
    &&& new_root != usize::MAX
    &&& c1.dom() == c0.dom().insert(new_root)
    &&& c1[new_root]@ == (NodeView {
        parent: None,
        items: Seq::<Item<K, V>>::empty(),
        children: seq![old_root],
    })
    &&& c1[old_root]@ == (NodeView { parent: Some(new_root), ..c0[old_root]@ })
    &&& forall|c: usize| c0.dom().contains(c) && c != old_root ==> #[trigger] c1[c] == c0[c]
    &&& g1 == (Shape {
        nodes: g0.nodes.insert(new_root),
        lo: g0.lo.insert(new_root, None),
        hi: g0.hi.insert(new_root, None),
        level: g0.level.insert(new_root, g0.level[old_root] + 1),
    })
}

/// An empty node above the root is a root that holds one item too few.
#[verifier::rlimit(50)]
pub proof fn lemma_grown<K: Ord, V>(
    c0: Cells<K, V>,
    c1: Cells<K, V>,
    g0: Shape<K>,
    g1: Shape<K>,
    model: Map<K, V>,
    old_root: usize,
    new_root: usize,
    over: Option<usize>,
)
    requires
        total_order::<K>(),
        tree_ok(c0, old_root, g0, over, None),
        model_ok(c0, g0, model),
        c0[old_root]@.items.len() >= MIN_ITEMS,
        grown(c0, c1, g0, g1, old_root, new_root),
    ensures
        tree_ok(c1, new_root, g1, over, Some(new_root)),
        model_ok(c1, g1, model),
        forall|y: usize, i: int, k: K| holds(c0, g0, y, i, k) ==> holds(c1, g1, y, i, k),
        !g0.nodes.contains(new_root),
{
    assert(node_ok(c0, old_root, g0, old_root));
    assert(!g0.nodes.contains(new_root)) by {
        if g0.nodes.contains(new_root) {
            assert(node_ok(c0, old_root, g0, new_root));
        }
    }
    assert forall|y: usize| #[trigger] g1.nodes.contains(y) implies node_ok(c1, new_root, g1, y)
        && node_fill(c1, new_root, over, Some(new_root), y) by {
        if y == new_root {
            assert(child_ok(c1, g1, new_root, 0));
            assert(node_local(c1, g1, new_root));
        } else {
            assert(node_ok(c0, old_root, g0, y));
            assert(node_fill(c0, old_root, over, None, y));
            assert(c1[y]@.items == c0[y]@.items);
            assert(c1[y]@.children == c0[y]@.children);
            assert(node_local(c1, g1, y));
            assert forall|i: int| 0 <= i < c1[y]@.children.len() implies #[trigger] child_ok(c1, g1, y, i) by {
                assert(child_ok(c0, g0, y, i));
                assert(c1[y]@.children[i] != old_root);
            }
            if y == old_root {
                assert(child_at(c1, new_root, 0, y));
            } else {
                let q = c0[y]@.parent.unwrap();
                let i = choose|i: int| child_at(c0, q, i, y);
                assert(child_at(c0, q, i, y));
                assert(node_ok(c0, old_root, g0, q));
                assert(child_at(c1, q, i, y));
            }
        }
    }
    assert forall|y: usize, i: int| g1.nodes.contains(y) && 0 <= i < c1[y]@.items.len() implies model.contains_pair(
        (#[trigger] item_at(c1, y, i)).key,
        item_at(c1, y, i).value,
    ) by {
        assert(y != new_root);
        assert(item_at(c1, y, i) == item_at(c0, y, i));
    }
    assert forall|y: usize, i: int, k: K| holds(c0, g0, y, i, k) implies holds(c1, g1, y, i, k) by {
        assert(node_ok(c0, old_root, g0, y));
        assert(item_at(c1, y, i) == item_at(c0, y, i));
    }
    assert forall|k: K| #[trigger] model.dom().contains(k) implies exists|y: usize, i: int| #[trigger]
        holds(c1, g1, y, i, k) by {
        let (y0, i0) = choose|y: usize, i: int| holds(c0, g0, y, i, k);
        assert(holds(c0, g0, y0, i0, k));
        assert(holds(c1, g1, y0, i0, k));
    }
}

/// The cells after the root `x`, which held one item too many, was split
/// under a new root `top`: `top` holds the median alone and has two
/// children, `x` with the items before the median and the new node `right`
/// with those after it.
pub open spec fn root_split_cells<K, V>(
    c0: Cells<K, V>,
    c2: Cells<K, V>,
    x: usize,
    top: usize,
    right: usize,
) -> bool {
    let xv = c0[x]@;
    let mo = median_offset();
    &&& !c0.dom().contains(top)
    &&& !c0.dom().contains(right)
    &&& top != right
    &&& c2.dom() == c0.dom().insert(top).insert(right)
    &&& c2[top]@ == (NodeView { parent: None, items: seq![xv.items[mo]], children: seq![x, right] })
    &&& c2[x]@.parent == Some(top)
    &&& c2[x]@.items == xv.items.subrange(0, mo)
    &&& c2[right]@.parent == Some(top)
    &&& c2[right]@.items == xv.items.subrange(mo + 1, M as int)
    &&& if xv.is_leaf() {
        c2[x]@.is_leaf() && c2[right]@.is_leaf()
    } else {
        c2[x]@.children == xv.children.subrange(0, mo + 1) && c2[right]@.children
            == xv.children.subrange(mo + 1, M + 1)
    }
    &&& forall|j: int|
        0 <= j < c2[right]@.children.len() ==> c2[#[trigger] c2[right]@.children[j]]@ == (NodeView {
            parent: Some(right),
            ..c0[c2[right]@.children[j]]@
        })
    &&& forall|c: usize|
        c0.dom().contains(c) && c != x && !c2[right]@.children.contains(c) ==> #[trigger] c2[c] == c0[c]
}

/// The cells after the leaf `id`, which holds `item` alone and has no
/// parent, was put into a vacant cell.
pub open spec fn lone_leaf<K, V>(c0: Cells<K, V>, c1: Cells<K, V>, id: usize, item: Item<K, V>) -> bool {
    &&& !c0.dom().contains(id)
    &&& c1.dom() == c0.dom().insert(id)
    &&& c1[id]@ == (NodeView { parent: None, items: seq![item], children: Seq::<usize>::empty() })
    &&& forall|c: usize| c0.dom().contains(c) ==> #[trigger] c1[c] == c0[c]
}

/// The node `id` holds one item too many and stands under a parent that
/// has room for one more item.
pub open spec fn split_under<K, V>(c0: Cells<K, V>, id: usize) -> bool {
    &&& c0[id]@.items.len() == M
    &&& c0[id]@.parent.is_some()
    &&& c0[c0[id]@.parent.unwrap()]@.items.len() < M - 1
}

/// The node `id` holds one item too many and has no parent.
pub open spec fn split_top<K, V>(c0: Cells<K, V>, id: usize) -> bool {
    c0[id]@.items.len() == M && c0[id]@.parent.is_none()
}

/// Where the node `id` holds no item too many, no cell and no place changes.
pub open spec fn split_none<K, V>(
    c0: Cells<K, V>,
    id: usize,
    c1: Cells<K, V>,
    before: (usize, int),
    after: (usize, int),
) -> bool {
    c0[id]@.items.len() < M ==> c1 == c0 && after == before
}

/// Where the node `id` holds one item too many and its parent has room, the
/// node is split once: the items before the median stay, the median moves
/// to the parent, and the items after it stand in a new sibling; a place
/// moves as `split_place` says.
pub open spec fn split_once<K, V>(
    c0: Cells<K, V>,
    id: usize,
    c1: Cells<K, V>,
    before: (usize, int),
    after: (usize, int),
) -> bool {
    split_under(c0, id) ==> exists|ix: int, right: usize|
        {
            &&& child_at(c0, c0[id]@.parent.unwrap(), ix, id)
            &&& #[trigger] split_cells(c0, c1, id, c0[id]@.parent.unwrap(), ix, right)
            &&& after == split_place(id, c0[id]@.parent.unwrap(), ix, right, before.0, before.1)
        }
}

/// Where the node `id` holds one item too many and has no parent, it is
/// split under the new root `top`, whose second child is the new sibling; a
/// place moves as `split_place` says.
pub open spec fn split_root<K, V>(
    c0: Cells<K, V>,
    id: usize,
    c1: Cells<K, V>,
    top: usize,
    before: (usize, int),
    after: (usize, int),
) -> bool {
    split_top(c0, id) ==> {
        let right = c1[top]@.children[1];
        &&& root_split_cells(c0, c1, id, top, right)
        &&& after == split_place(id, top, 0, right, before.0, before.1)
    }
}

/// The node `top` is a new root above the former root `old_root`, which was
/// split under it: it holds one item and has two children, the former root
/// and a new node.
pub open spec fn root_grown<K, V>(c0: Cells<K, V>, c1: Cells<K, V>, old_root: usize, top: usize) -> bool {
    &&& !c0.dom().contains(top)
    &&& c1[top]@.parent.is_none()
    &&& c1[top]@.items.len() == 1
    &&& c1[top]@.children.len() == 2
    &&& c1[top]@.children[0] == old_root
    &&& !c0.dom().contains(c1[top]@.children[1])
    &&& c1[old_root]@.parent == Some(top)
}

/// Where the node `id` holds one item too many it keeps the items before
/// the median, however many nodes above it are split as well; a place
/// before the median stays where it is, and a place after the median
/// stands in a new node, as many places from its beginning as it stood
/// behind the median, among the items that stood after the median.
pub open spec fn split_parts<K, V>(
    c0: Cells<K, V>,
    id: usize,
    c1: Cells<K, V>,
    before: (usize, int),
    after: (usize, int),
) -> bool {
    let mo = median_offset();
    c0[id]@.items.len() == M ==> {
        &&& c1[id]@.items == c0[id]@.items.subrange(0, mo)
        &&& before.0 == id && before.1 < mo ==> after == before
        &&& before.0 == id && before.1 > mo ==> {
            &&& !c0.dom().contains(after.0)
            &&& after.1 == before.1 - mo - 1
            &&& c1[after.0]@.items == c0[id]@.items.subrange(mo + 1, M as int)
        }
    }
}

/// A split leaves the items of every node but the node that is split and
/// its parent as they are.
pub proof fn lemma_split_keeps<K, V>(
    c0: Cells<K, V>,
    c3: Cells<K, V>,
    x: usize,
    p: usize,
    ix: int,
    right: usize,
    y: usize,
)
    requires
        split_cells(c0, c3, x, p, ix, right),
        c0.dom().contains(y),
        y != x,
        y != p,
    ensures
        c3.dom().contains(y),
        c3[y]@.items == c0[y]@.items,
{
    if c3[right]@.children.contains(y) {
        let j = choose|j: int| 0 <= j < c3[right]@.children.len() && c3[right]@.children[j] == y;
        assert(c3[c3[right]@.children[j]]@.items == c0[y]@.items);
    }
}

/// A new root above the old one and the split of the old one under it make
/// the split of the root.
pub proof fn lemma_root_split<K, V>(
    c0: Cells<K, V>,
    c1: Cells<K, V>,
    c2: Cells<K, V>,
    g0: Shape<K>,
    g1: Shape<K>,
    x: usize,
    top: usize,
    right: usize,
)
    requires
        grown(c0, c1, g0, g1, x, top),
        split_cells(c1, c2, x, top, 0, right),
        c0.dom().contains(x),
        c0[x]@.items.len() == M,
        c0[x]@.shaped(),
        forall|j: int|
            0 <= j < c0[x]@.children.len() ==> c0.dom().contains(#[trigger] c0[x]@.children[j])
                && c0[x]@.children[j] != x,
    ensures
        root_split_cells(c0, c2, x, top, right),
{
    let xv = c0[x]@;
    let mo = median_offset();
    assert(c1[x]@.items == xv.items);
    assert(c1[x]@.children == xv.children);
    assert(c2[top]@.items =~= seq![xv.items[mo]]);
    assert(c2[top]@.children =~= seq![x, right]);
    assert(c2.dom() =~= c0.dom().insert(top).insert(right));
    assert forall|j: int| 0 <= j < c2[right]@.children.len() implies c2[#[trigger] c2[right]@.children[j]]@
        == (NodeView { parent: Some(right), ..c0[c2[right]@.children[j]]@ }) by {
        let ch = c2[right]@.children[j];
        assert(!xv.is_leaf());
        assert(ch == xv.children[mo + 1 + j]);
        assert(c1[ch] == c0[ch]);
    }
    assert forall|c: usize|
        c0.dom().contains(c) && c != x && !c2[right]@.children.contains(c) implies #[trigger] c2[c]
        == c0[c] by {
        assert(c1[c] == c0[c]);
        assert(c1.dom().contains(c));
    }
}

/// Changes of the cells of a slab follow one another.
pub proof fn lemma_evolves_trans<K, V>(
    c0: Cells<K, V>,
    c1: Cells<K, V>,
    c2: Cells<K, V>,
    n0: Set<usize>,
    n1: Set<usize>,
    n2: Set<usize>,
)
    requires
        evolves(c0, c1, n0, n1),
        evolves(c1, c2, n1, n2),
        forall|y: usize| n0.contains(y) ==> c0.dom().contains(y),
        forall|y: usize| n1.contains(y) ==> c1.dom().contains(y),
    ensures
        evolves(c0, c2, n0, n2),
{
    assert forall|id: usize| c0.dom().contains(id) && !n0.contains(id) implies #[trigger] c2.dom().contains(
        id,
    ) && c2[id] == c0[id] by {
        assert(c1.dom().contains(id) && c1[id] == c0[id]);
        if n1.contains(id) {
            assert(n0.contains(id));
        }
        assert(!n1.contains(id));
        assert(c2.dom().contains(id) && c2[id] == c1[id]);
    }
    assert forall|id: usize| #[trigger] n2.contains(id) && c0.dom().contains(id) implies n0.contains(
        id,
    ) by {
        if !n0.contains(id) {
            assert(c1.dom().contains(id));
            assert(n1.contains(id));
        }
    }
    assert forall|id: usize| #[trigger] c2.dom().contains(id) implies c0.dom().contains(id)
        || n2.contains(id) by {
        if !n2.contains(id) {
            assert(c1.dom().contains(id));
            if !c0.dom().contains(id) {
                assert(n1.contains(id));
            }
        }
    }
    assert forall|id: usize| n0.contains(id) && !n2.contains(id) implies !#[trigger] c2.dom().contains(
        id,
    ) by {
        if c2.dom().contains(id) {
            assert(c1.dom().contains(id));
            assert(n1.contains(id));
        }
    }
}

impl<K: Ord, V> BTreeMap<K, V> {
    /// Stores `node` in a vacant cell and makes that cell the parent of the
    /// node's children. Returns the index of the cell.
    pub fn allocate_node<S: Slab<Node<K, V>>>(store: &mut S, node: Node<K, V>) -> (id: usize)
        requires
            old(store).wf(),
            node@.items.len() <= M,
            forall|j: int|
                0 <= j < node@.children.len() ==> old(store).cells().dom().contains(
                    #[trigger] node@.children[j],
                ),
        ensures
            final(store).wf(),
            id != usize::MAX,
            !old(store).cells().dom().contains(id),
            final(store).cells().dom() == old(store).cells().dom().insert(id),
            final(store).cells()[id]@ == node@,
            forall|j: int|
                0 <= j < node@.children.len() ==> final(store).cells()[#[trigger] node@.children[j]]@
                    == (NodeView { parent: Some(id), ..old(store).cells()[node@.children[j]]@ }),
            forall|c: usize|
                old(store).cells().dom().contains(c) && !node@.children.contains(c)
                    ==> #[trigger] final(store).cells()[c] == old(store).cells()[c],
    {
        let ghost c0 = store.cells();
        let ghost nv = node@;
        proof {
            node.lemma_shaped();
        }
        let children = children_of(&node);
        let id = store.insert(node);
        crate::rebalance::set_parents(store, &children, Some(id));
        proof {
            let after = store.cells();
            let c1 = c0.insert(id, node);
            assert(after.dom() =~= c0.dom().insert(id));
            assert forall|j: int| 0 <= j < nv.children.len() implies nv.children[j] != id by {}
            assert(!nv.children.contains(id));
            assert forall|j: int| 0 <= j < nv.children.len() implies after[#[trigger] nv.children[j]]@
                == (NodeView { parent: Some(id), ..c0[nv.children[j]]@ }) by {
                assert(c1[nv.children[j]] == c0[nv.children[j]]);
            }
        }
        id
    }

    /// Vacates the cell `id` and returns the node that it held.
    pub fn release_node<S: Slab<Node<K, V>>>(store: &mut S, id: usize) -> (node: Node<K, V>)
        requires
            old(store).wf(),
            old(store).cells().dom().contains(id),
        ensures
            final(store).wf(),
            node == old(store).cells()[id],
            final(store).cells() == old(store).cells().remove(id),
    {
        store.remove(id).unwrap()
    }

    /// Binds `value` to the key of the item at `addr` and returns the value
    /// that was bound to it.
    pub fn replace_value_at<S: Slab<Node<K, V>>>(&mut self, store: &mut S, addr: Address, value: V) -> (previous:
        V)
        requires
            old(self).wf(old(store)),
            old(self).is_item_address(old(store).cells(), addr),
        ensures
            final(self).wf(final(store)),
            previous == old(self).item_of(old(store).cells(), addr).value,
            previous == old(self)@[old(self).item_of(old(store).cells(), addr).key],
            final(self)@ == old(self)@.insert(old(self).item_of(old(store).cells(), addr).key, value),
            final(self).nodes() == old(self).nodes(),
            final(self).root() == old(self).root(),
            evolves(old(store).cells(), final(store).cells(), old(self).nodes(), final(self).nodes()),
            final(self).is_item_address(final(store).cells(), addr),
            final(self).item_of(final(store).cells(), addr) == (Item {
                key: old(self).item_of(old(store).cells(), addr).key,
                value,
            }),
            item_replaced(
                old(store).cells(),
                final(store).cells(),
                addr.id,
                addr.offset.as_int(),
                Item { key: old(self).item_of(old(store).cells(), addr).key, value },
            ),
            forall|other: Address|
                old(self).is_item_address(old(store).cells(), other)
                    ==> #[trigger] final(self).is_item_address(final(store).cells(), other),
    {
        let ghost c0 = store.cells();
        let ghost g = self.shape@;
        let ghost root = self.root.unwrap();
        let ghost m0 = self.model@;
        let ghost offset = addr.offset.as_int();
        let ghost key = c0[addr.id]@.items[offset].key;
        proof {
            assert(node_ok(c0, root, g, addr.id));
            let item = item_at(c0, addr.id, offset);
            assert(m0.contains_pair(item.key, item.value));
        }
        let previous = node_mut(store, addr.id).replace_value(addr.offset.unwrap(), value);
        self.model = Ghost(m0.insert(key, value));
        proof {
            let c1 = store.cells();
            assert(c1.dom() =~= c0.dom());
            lemma_item_replaced(
                c0,
                c1,
                root,
                g,
                m0,
                addr.id,
                offset,
                Item { key, value },
            );
            assert(self.model@.dom() =~= m0.dom());
            crate::tree::lemma_nodes_in_cells(c0, root, g, None, None);
        }
        previous
    }

    /// Puts `key` and `value` in the place of the item at `addr`, whose key is
    /// `key`, and returns what the item held.
    pub fn replace_at<S: Slab<Node<K, V>>>(&mut self, store: &mut S, addr: Address, key: K, value: V) -> (previous:
        (K, V))
        requires
            old(self).wf(old(store)),
            old(self).is_item_address(old(store).cells(), addr),
            old(self).item_of(old(store).cells(), addr).key == key,
        ensures
            final(self).wf(final(store)),
            previous.0 == key,
            previous.1 == old(self)@[key],
            final(self)@ == old(self)@.insert(key, value),
            final(self).nodes() == old(self).nodes(),
            final(self).root() == old(self).root(),
            evolves(old(store).cells(), final(store).cells(), old(self).nodes(), final(self).nodes()),
            final(self).is_item_address(final(store).cells(), addr),
            final(self).item_of(final(store).cells(), addr) == (Item { key, value }),
    {
        let ghost c0 = store.cells();
        let ghost g = self.shape@;
        let ghost root = self.root.unwrap();
        let ghost m0 = self.model@;
        let ghost offset = addr.offset.as_int();
        proof {
            assert(node_ok(c0, root, g, addr.id));
            let item = item_at(c0, addr.id, offset);
            assert(m0.contains_pair(item.key, item.value));
        }
        let previous = node_mut(store, addr.id).replace(addr.offset.unwrap(), Item::new(key, value));
        self.model = Ghost(m0.insert(key, value));
        proof {
            let c1 = store.cells();
            assert(c1.dom() =~= c0.dom());
            lemma_item_replaced(c0, c1, root, g, m0, addr.id, offset, Item { key, value });
            assert(self.model@.dom() =~= m0.dom());
            crate::tree::lemma_nodes_in_cells(c0, root, g, None, None);
        }
        previous.into_pair()
    }

    /// Binds `value` to `key`, putting `key` itself in the place of the key
    /// that the map has. Returns the entry that the map had for the key, if
    /// it had one.
    pub fn replace<S: Slab<Node<K, V>>>(&mut self, store: &mut S, key: K, value: V) -> (previous: Option<
        (K, V),
    >)
        requires
            old(self).wf(old(store)),
            old(self)@.dom().len() < usize::MAX,
        ensures
            final(self).wf(final(store)),
            final(self)@ == old(self)@.insert(key, value),
            previous == (if old(self)@.dom().contains(key) {
                Some((key, old(self)@[key]))
            } else {
                None::<(K, V)>
            }),
            evolves(old(store).cells(), final(store).cells(), old(self).nodes(), final(self).nodes()),
    {
        match self.address_of(store, &key) {
            Ok(addr) => Some(self.replace_at(store, addr, key, value)),
            Err(addr) => {
                self.insert_exactly_at(store, addr, Item::new(key, value), None);
                None
            },
        }
    }

    /// Puts an empty node above the root `id`, which holds one item too many.
    /// Returns the index of the new root.
    fn grow_root<S: Slab<Node<K, V>>>(&mut self, store: &mut S, id: usize, Ghost(k): Ghost<K>, Ghost(addr): Ghost<Address>) -> (root_id:
        usize)
        requires
            total_order::<K>(),
            old(store).wf(),
            old(self).root == Some(id),
            tree_ok(old(store).cells(), id, old(self).shape@, Some(id), None),
            model_ok(old(store).cells(), old(self).shape@, old(self).model@),
            old(store).cells()[id]@.items.len() == M,
            holds(old(store).cells(), old(self).shape@, addr.id, addr.offset.as_int(), k),
        ensures
            final(store).wf(),
            final(self).root == Some(root_id),
            root_id != usize::MAX,
            final(self).len == old(self).len,
            final(self).model == old(self).model,
            tree_ok(final(store).cells(), root_id, final(self).shape@, Some(id), Some(root_id)),
            model_ok(final(store).cells(), final(self).shape@, final(self).model@),
            final(store).cells()[id]@.items.len() == M,
            final(store).cells()[id]@.parent == Some(root_id),
            final(store).cells()[root_id]@.items.len() == 0,
            final(self).shape@.nodes.contains(id),
            final(self).shape@.level[root_id] == final(self).shape@.level[id] + 1,
            grown(
                old(store).cells(),
                final(store).cells(),
                old(self).shape@,
                final(self).shape@,
                id,
                root_id,
            ),
            holds(final(store).cells(), final(self).shape@, addr.id, addr.offset.as_int(), k),
            evolves(
                old(store).cells(),
                final(store).cells(),
                old(self).shape@.nodes,
                final(self).shape@.nodes,
            ),
    {
        let ghost c0 = store.cells();
        let ghost g0 = self.shape@;
        proof {
            assert(node_ok(c0, id, g0, id));
        }
        let root_id = Self::allocate_node(store, Node::stem(None, id));
        self.root = Some(root_id);
        let ghost g1 = Shape {
            nodes: g0.nodes.insert(root_id),
            lo: g0.lo.insert(root_id, None),
            hi: g0.hi.insert(root_id, None),
            level: g0.level.insert(root_id, g0.level[id] + 1),
        };
        self.shape = Ghost(g1);
        proof {
            let c1 = store.cells();
            let children = seq![id];
            assert(children[0] == id);
            assert(c1[id]@ == (NodeView { parent: Some(root_id), ..c0[id]@ }));
            assert forall|c: usize| c0.dom().contains(c) && c != id implies #[trigger] c1[c] == c0[c] by {
                assert forall|j: int| 0 <= j < children.len() implies children[j] != c by {}
                assert(!children.contains(c));
            }
            lemma_grown(c0, c1, g0, g1, self.model@, id, root_id, Some(id));
            assert forall|y: usize| #[trigger] g0.nodes.contains(y) implies c0.dom().contains(y) by {
                assert(node_ok(c0, id, g0, y));
            }
        }
        root_id
    }

    /// Splits the node `id`, which holds one item too many, and puts the
    /// median into its parent. Returns where the item at `addr` stands
    /// afterwards.
    #[verifier::rlimit(50)]
    fn split_node<S: Slab<Node<K, V>>>(
        &mut self,
        store: &mut S,
        id: usize,
        parent_id: usize,
        addr: Address,
        Ghost(under): Ghost<Option<usize>>,
        Ghost(k): Ghost<K>,
    ) -> (out: (Address, Ghost<(int, usize)>))
        requires
            total_order::<K>(),
            old(store).wf(),
            old(self).root.is_some(),
            tree_ok(
                old(store).cells(),
                old(self).root.unwrap(),
                old(self).shape@,
                Some(id),
                under,
            ),
            under.is_none() || under == Some(parent_id),
            model_ok(old(store).cells(), old(self).shape@, old(self).model@),
            old(self).shape@.nodes.contains(id),
            old(store).cells()[id]@.items.len() == M,
            old(store).cells()[id]@.parent == Some(parent_id),
            holds(old(store).cells(), old(self).shape@, addr.id, addr.offset.as_int(), k),
        ensures
            final(store).wf(),
            final(self).root == old(self).root,
            final(self).len == old(self).len,
            final(self).model == old(self).model,
            tree_ok(
                final(store).cells(),
                final(self).root.unwrap(),
                final(self).shape@,
                Some(parent_id),
                None,
            ),
            model_ok(final(store).cells(), final(self).shape@, final(self).model@),
            final(self).shape@.nodes.contains(parent_id),
            final(store).cells()[parent_id]@.items.len() == old(store).cells()[parent_id]@.items.len()
                + 1,
            final(self).shape@.level[final(self).root.unwrap()] == old(self).shape@.level[old(
                self,
            ).root.unwrap()],
            final(self).shape@.level[parent_id] == old(self).shape@.level[id] + 1,
            holds(final(store).cells(), final(self).shape@, out.0.id, out.0.offset.as_int(), k),
            child_at(old(store).cells(), parent_id, out.1@.0, id),
            split_cells(old(store).cells(), final(store).cells(), id, parent_id, out.1@.0, out.1@.1),
            final(self).shape@ == split_shape(old(self).shape@, old(store).cells(), id, out.1@.1),
            (out.0.id, out.0.offset.as_int()) == split_place(
                id,
                parent_id,
                out.1@.0,
                out.1@.1,
                addr.id,
                addr.offset.as_int(),
            ),
            evolves(
                old(store).cells(),
                final(store).cells(),
                old(self).shape@.nodes,
                final(self).shape@.nodes,
            ),
    {
        let ghost c0 = store.cells();
        let ghost g0 = self.shape@;
        let ghost root = self.root.unwrap();
        proof {
            assert(node_ok(c0, root, g0, id));
            assert(node_ok(c0, root, g0, root));
            assert(node_ok(c0, root, g0, parent_id));
            assert(node_fill(c0, root, Some(id), under, parent_id));
            assert forall|y: usize| #[trigger] g0.nodes.contains(y) implies c0.dom().contains(y) by {
                assert(node_ok(c0, root, g0, y));
            }
        }
        let ghost ix = choose|i: int| child_at(c0, parent_id, i, id);
        assert(child_at(c0, parent_id, ix, id));
        let (median_offset, median, right_node) = node_mut(store, id).split();
        let ghost c1 = store.cells();
        proof {
            right_node.lemma_shaped();
            c1[id].lemma_shaped();
            assert forall|j: int| 0 <= j < right_node@.children.len() implies c1.dom().contains(
                #[trigger] right_node@.children[j],
            ) by {
                assert(right_node@.children[j] == c0[id]@.children[median_offset + 1 + j]);
                assert(child_ok(c0, g0, id, median_offset + 1 + j));
            }
        }
        let right_id = Self::allocate_node(store, right_node);
        let ghost c2 = store.cells();
        proof {
            assert(child_ok(c0, g0, parent_id, ix));
            assert forall|j: int| 0 <= j < right_node@.children.len() implies right_node@.children[j] != id
                && right_node@.children[j] != parent_id by {
                assert(right_node@.children[j] == c0[id]@.children[median_offset + 1 + j]);
                assert(child_ok(c0, g0, id, median_offset + 1 + j));
            }
            assert(!right_node@.children.contains(id));
            assert(!right_node@.children.contains(parent_id));
            assert(c2[id] == c1[id]);
            assert(c2[parent_id] == c0[parent_id]);
        }
        let parent = store.get(parent_id).unwrap();
        let offset = parent.child_index(id).unwrap();
        proof {
            if offset != ix {
                if offset < ix {
                    crate::tree::lemma_children_distinct(c0, root, g0, parent_id, offset as int, ix);
                } else {
                    crate::tree::lemma_children_distinct(c0, root, g0, parent_id, ix, offset as int);
                }
            }
        }
        node_mut(store, parent_id).insert(offset, median, Some(right_id));
        let ghost c3 = store.cells();
        let ghost g3 = split_shape(g0, c0, id, right_id);
        self.shape = Ghost(g3);
        proof {
            assert(c3.dom() =~= c0.dom().insert(right_id));
            assert(c3[right_id] == c2[right_id]);
            assert(c3[id] == c1[id]);
            assert forall|j: int| 0 <= j < c3[right_id]@.children.len() implies c3[#[trigger] c3[right_id]@.children[j]]@
                == (NodeView { parent: Some(right_id), ..c0[c3[right_id]@.children[j]]@ }) by {
                let c = right_node@.children[j];
                assert(c2[c]@ == (NodeView { parent: Some(right_id), ..c1[c]@ }));
                assert(c1[c] == c0[c]);
                assert(c3[c] == c2[c]);
            }
            assert forall|c: usize|
                c0.dom().contains(c) && c != id && c != parent_id && !c3[right_id]@.children.contains(
                    c,
                ) implies #[trigger] c3[c] == c0[c] by {
                assert(c3[c] == c2[c]);
                assert(c2[c] == c1[c]);
                assert(c1[c] == c0[c]);
            }
            assert(split_cells(c0, c3, id, parent_id, ix, right_id));
            assert(split_pre(c0, c3, root, g0, under, id, parent_id, ix, right_id));
            lemma_split_tree(c0, c3, root, g0, under, id, parent_id, ix, right_id);
            lemma_split_model(c0, c3, root, g0, under, self.model@, id, parent_id, ix, right_id);
            lemma_split_item(
                c0,
                c3,
                root,
                g0,
                under,
                id,
                parent_id,
                ix,
                right_id,
                addr.id,
                addr.offset.as_int(),
            );
            crate::split::lemma_split_evolves(c0, c3, root, g0, under, id, parent_id, ix, right_id);
            assert(root != right_id);
            assert(parent_id != right_id);
        }
        let addr_offset = addr.offset.unwrap();
        let place = if addr.id == id {
            if addr_offset == median_offset {
                Address::new(parent_id, Offset::new(offset))
            } else if addr_offset > median_offset {
                Address::new(right_id, Offset::new(addr_offset - median_offset - 1))
            } else {
                addr
            }
        } else if addr.id == parent_id && addr_offset >= offset {
            Address::new(parent_id, Offset::new(addr_offset + 1))
        } else {
            addr
        };
        (place, Ghost((ix, right_id)))
    }

    /// Restores the balance of the tree after an item was put into the node
    /// `id`: as long as a node holds one item too many it is split and its
    /// median moves up, and a new root is made where the old one is split.
    /// Returns where the item at `addr` stands afterwards.
    #[verifier::rlimit(50)]
    pub(crate) fn rebalance_overflow<S: Slab<Node<K, V>>>(
        &mut self,
        store: &mut S,
        id: usize,
        addr: Address,
        Ghost(k): Ghost<K>,
    ) -> (r: Address)
        requires
            total_order::<K>(),
            old(store).wf(),
            old(self).root.is_some(),
            tree_ok(old(store).cells(), old(self).root.unwrap(), old(self).shape@, Some(id), None),
            model_ok(old(store).cells(), old(self).shape@, old(self).model@),
            old(self).shape@.nodes.contains(id),
            holds(old(store).cells(), old(self).shape@, addr.id, addr.offset.as_int(), k),
        ensures
            final(store).wf(),
            final(self).root.is_some(),
            final(self).root.unwrap() != usize::MAX || old(self).root.unwrap() == usize::MAX,
            final(self).len == old(self).len,
            final(self).model == old(self).model,
            tree_ok(final(store).cells(), final(self).root.unwrap(), final(self).shape@, None, None),
            model_ok(final(store).cells(), final(self).shape@, final(self).model@),
            holds(final(store).cells(), final(self).shape@, r.id, r.offset.as_int(), k),
            evolves(
                old(store).cells(),
                final(store).cells(),
                old(self).shape@.nodes,
                final(self).shape@.nodes,
            ),
            split_none(
                old(store).cells(),
                id,
                final(store).cells(),
                (addr.id, addr.offset.as_int()),
                (r.id, r.offset.as_int()),
            ),
            old(store).cells()[id]@.items.len() < M ==> final(self).root == old(self).root
                && final(self).shape == old(self).shape,
            split_once(
                old(store).cells(),
                id,
                final(store).cells(),
                (addr.id, addr.offset.as_int()),
                (r.id, r.offset.as_int()),
            ),
            split_under(old(store).cells(), id) ==> final(self).root == old(self).root,
            split_root(
                old(store).cells(),
                id,
                final(store).cells(),
                final(self).root.unwrap(),
                (addr.id, addr.offset.as_int()),
                (r.id, r.offset.as_int()),
            ),
            split_top(old(store).cells(), id) ==> final(self).shape@.level[final(self).root.unwrap()]
                == old(self).shape@.level[id] + 1,
            final(self).root != old(self).root ==> root_grown(
                old(store).cells(),
                final(store).cells(),
                old(self).root.unwrap(),
                final(self).root.unwrap(),
            ) && final(self).shape@.level[final(self).root.unwrap()] == old(self).shape@.level[old(
                self,
            ).root.unwrap()] + 1,
            split_parts(
                old(store).cells(),
                id,
                final(store).cells(),
                (addr.id, addr.offset.as_int()),
                (r.id, r.offset.as_int()),
            ),
    {
        let ghost c_start = store.cells();
        let ghost nodes_start = self.shape@.nodes;
        let ghost g_start = self.shape@;
        let ghost id0 = id;
        let ghost a0 = (addr.id, addr.offset.as_int());
        let ghost mut splits: nat = 0;
        let mut id = id;
        let mut addr = addr;
        proof {
            crate::tree::lemma_nodes_in_cells(c_start, self.root.unwrap(), g_start, Some(id0), None);
            assert(node_ok(c_start, self.root.unwrap(), g_start, id0));
        }
        loop
            invariant_except_break
                tree_ok(store.cells(), self.root.unwrap(), self.shape@, Some(id), None),
                self.shape@.nodes.contains(id),
                splits == 0 ==> store.cells() == c_start && id == id0 && (addr.id, addr.offset.as_int())
                    == a0 && self.shape@ == g_start && self.root == old(self).root,
                splits == 1 ==> c_start[id0]@.parent == Some(id) && self.root == old(self).root && exists|
                    ix: int,
                    right: usize,
                |
                    {
                        &&& child_at(c_start, id, ix, id0)
                        &&& #[trigger] split_cells(c_start, store.cells(), id0, id, ix, right)
                        &&& (addr.id, addr.offset.as_int()) == split_place(id0, id, ix, right, a0.0, a0.1)
                    },
                splits >= 1 ==> c_start[id0]@.items.len() == M && c_start[id0]@.parent.is_some(),
                splits >= 2 ==> c_start[c_start[id0]@.parent.unwrap()]@.items.len() >= M - 1,
                self.root == old(self).root,
                self.shape@.level[self.root.unwrap()] == g_start.level[old(self).root.unwrap()],
                splits >= 1 ==> self.shape@.level[id] > g_start.level[id0],
            invariant
                total_order::<K>(),
                store.wf(),
                self.root.is_some(),
                self.root.unwrap() != usize::MAX || old(self).root.unwrap() == usize::MAX,
                self.len == old(self).len,
                self.model == old(self).model,
                model_ok(store.cells(), self.shape@, self.model@),
                holds(store.cells(), self.shape@, addr.id, addr.offset.as_int(), k),
                evolves(c_start, store.cells(), nodes_start, self.shape@.nodes),
                forall|y: usize| nodes_start.contains(y) ==> c_start.dom().contains(y),
                c_start.dom().contains(id0),
                g_start.nodes.contains(id0),
                old(self).root.is_some(),
                node_ok(c_start, old(self).root.unwrap(), g_start, id0),
                forall|y: usize| c_start.dom().contains(y) ==> store.cells().dom().contains(y),
                self.shape@.nodes.contains(id0),
                self.shape@.level[id0] == g_start.level[id0],
                splits >= 1 ==> store.cells()[id0]@.items == c_start[id0]@.items.subrange(
                    0,
                    median_offset(),
                ),
                splits >= 1 && a0.0 == id0 && a0.1 != median_offset() ==> self.shape@.nodes.contains(addr.id)
                    && self.shape@.level[addr.id] == g_start.level[id0],
                splits >= 1 && a0.0 == id0 && a0.1 < median_offset() ==> (addr.id, addr.offset.as_int())
                    == a0,
                splits >= 1 && a0.0 == id0 && a0.1 > median_offset() ==> !c_start.dom().contains(addr.id)
                    && addr.offset.as_int() == a0.1 - median_offset() - 1 && store.cells()[addr.id]@.items
                    == c_start[id0]@.items.subrange(median_offset() + 1, M as int),
                splits == 0 ==> store.cells() == c_start && (addr.id, addr.offset.as_int()) == a0,
            ensures
                store.wf(),
                self.root.is_some(),
                self.root.unwrap() != usize::MAX || old(self).root.unwrap() == usize::MAX,
                self.len == old(self).len,
                self.model == old(self).model,
                tree_ok(store.cells(), self.root.unwrap(), self.shape@, None, None),
                model_ok(store.cells(), self.shape@, self.model@),
                holds(store.cells(), self.shape@, addr.id, addr.offset.as_int(), k),
                evolves(c_start, store.cells(), nodes_start, self.shape@.nodes),
                split_none(c_start, id0, store.cells(), a0, (addr.id, addr.offset.as_int())),
                c_start[id0]@.items.len() < M ==> self.root == old(self).root && self.shape@ == g_start,
                split_once(c_start, id0, store.cells(), a0, (addr.id, addr.offset.as_int())),
                split_under(c_start, id0) ==> self.root == old(self).root,
                split_root(
                    c_start,
                    id0,
                    store.cells(),
                    self.root.unwrap(),
                    a0,
                    (addr.id, addr.offset.as_int()),
                ),
                split_top(c_start, id0) ==> self.shape@.level[self.root.unwrap()] == g_start.level[id0] + 1,
                self.root != old(self).root ==> root_grown(
                    c_start,
                    store.cells(),
                    old(self).root.unwrap(),
                    self.root.unwrap(),
                ) && self.shape@.level[self.root.unwrap()] == g_start.level[old(self).root.unwrap()] + 1,
            decreases self.shape@.level[self.root.unwrap()] - self.shape@.level[id],
        {
            let ghost c0 = store.cells();
            let ghost g0 = self.shape@;
            let ghost root = self.root.unwrap();
            proof {
                assert(node_ok(c0, root, g0, id));
                assert(node_fill(c0, root, Some(id), None, id));
                assert forall|y: usize| #[trigger] g0.nodes.contains(y) implies c0.dom().contains(y) by {
                    assert(node_ok(c0, root, g0, y));
                }
            }
            let node = store.get(id).unwrap();
            if !node.is_overflowing() {
                proof {
                    assert forall|y: usize| #[trigger] g0.nodes.contains(y) implies node_ok(c0, root, g0, y)
                        && node_fill(c0, root, None, None, y) by {
                        assert(node_fill(c0, root, Some(id), None, y));
                    }
                    if splits == 1 {
                        let (ix, right) = choose|ix: int, right: usize|
                            {
                                &&& child_at(c_start, id, ix, id0)
                                &&& #[trigger] split_cells(c_start, c0, id0, id, ix, right)
                                &&& (addr.id, addr.offset.as_int()) == split_place(
                                    id0,
                                    id,
                                    ix,
                                    right,
                                    a0.0,
                                    a0.1,
                                )
                            };
                        assert(split_cells(c_start, c0, id0, id, ix, right));
                    }
                }
                break ;
            }
            match node.parent() {
                Some(parent_id) => {
                    let (place, Ghost(found)) = self.split_node(
                        store,
                        id,
                        parent_id,
                        addr,
                        Ghost(None),
                        Ghost(k),
                    );
                    proof {
                        lemma_evolves_trans(c_start, c0, store.cells(), nodes_start, g0.nodes, self.shape@.nodes);
                        if splits == 1 {
                            let (ix, right) = choose|ix: int, right: usize|
                                {
                                    &&& child_at(c_start, id, ix, id0)
                                    &&& #[trigger] split_cells(c_start, c0, id0, id, ix, right)
                                    &&& (addr.id, addr.offset.as_int()) == split_place(
                                        id0,
                                        id,
                                        ix,
                                        right,
                                        a0.0,
                                        a0.1,
                                    )
                                };
                            assert(split_cells(c_start, c0, id0, id, ix, right));
                            c_start[id].lemma_shaped();
                            assert(c0[id]@.items.len() == c_start[id]@.items.len() + 1);
                        }
                        if splits == 0 {
                            assert(split_cells(c_start, store.cells(), id0, parent_id, found.0, found.1));
                        }
                        let c3 = store.cells();
                        assert(split_cells(c0, c3, id, parent_id, found.0, found.1));
                        assert(child_ok(c0, g0, parent_id, found.0));
                        if splits >= 1 {
                            // the node that was split first and the place in it lie below
                            lemma_split_keeps(c0, c3, id, parent_id, found.0, found.1, id0);
                            if a0.0 == id0 && a0.1 != median_offset() {
                                lemma_split_keeps(c0, c3, id, parent_id, found.0, found.1, addr.id);
                            }
                        }
                        splits = splits + 1;
                    }
                    addr = place;
                    id = parent_id;
                },
                None => {
                    let root_id = self.grow_root(store, id, Ghost(k), Ghost(addr));
                    let ghost c1 = store.cells();
                    let ghost g1 = self.shape@;
                    proof {
                        lemma_evolves_trans(c_start, c0, c1, nodes_start, g0.nodes, g1.nodes);
                        assert forall|y: usize| #[trigger] g1.nodes.contains(y) implies c1.dom().contains(y) by {
                            assert(node_ok(c1, root_id, g1, y));
                        }
                    }
                    let (place, Ghost(found)) = self.split_node(
                        store,
                        id,
                        root_id,
                        addr,
                        Ghost(Some(root_id)),
                        Ghost(k),
                    );
                    proof {
                        lemma_evolves_trans(c_start, c1, store.cells(), nodes_start, g1.nodes, self.shape@.nodes);
                        let c3 = store.cells();
                        let g3 = self.shape@;
                        assert(node_ok(c3, root_id, g3, root_id));
                        assert forall|y: usize| #[trigger] g3.nodes.contains(y) implies node_ok(c3, root_id, g3, y)
                            && node_fill(c3, root_id, None, None, y) by {
                            assert(node_fill(c3, root_id, Some(root_id), None, y));
                        }
                        if splits == 1 {
                            let (ix, right) = choose|ix: int, right: usize|
                                {
                                    &&& child_at(c_start, id, ix, id0)
                                    &&& #[trigger] split_cells(c_start, c0, id0, id, ix, right)
                                    &&& (addr.id, addr.offset.as_int()) == split_place(
                                        id0,
                                        id,
                                        ix,
                                        right,
                                        a0.0,
                                        a0.1,
                                    )
                                };
                            assert(split_cells(c_start, c0, id0, id, ix, right));
                            c_start[id].lemma_shaped();
                            assert(c0[id]@.items.len() == c_start[id]@.items.len() + 1);
                        }
                        if splits == 0 {
                            assert(found.0 == 0);
                            assert forall|j: int| 0 <= j < c0[id]@.children.len() implies c0.dom().contains(
                                #[trigger] c0[id]@.children[j],
                            ) && c0[id]@.children[j] != id by {
                                assert(child_ok(c0, g0, id, j));
                            }
                            c0[id].lemma_shaped();
                            lemma_root_split(c0, c1, c3, g0, g1, id, root_id, found.1);
                            assert(c3[root_id]@.children[1] == found.1);
                        }
                        assert(split_cells(c1, c3, id, root_id, found.0, found.1));
                        assert(found.0 == 0);
                        assert(c3[root_id]@.items.len() == 1);
                        assert(c3[root_id]@.children =~= seq![id, found.1]);
                        if splits >= 1 {
                            assert(c1[id0] == c0[id0]);
                            lemma_split_keeps(c1, c3, id, root_id, found.0, found.1, id0);
                            if a0.0 == id0 && a0.1 != median_offset() {
                                assert(c1[addr.id] == c0[addr.id]);
                                lemma_split_keeps(c1, c3, id, root_id, found.0, found.1, addr.id);
                            }
                        }
                        splits = splits + 1;
                    }
                    addr = place;
                    break ;
                },
            }
        }
        addr
    }

    /// Puts `item` into the leaf of `addr` at the place `addr`, where its key
    /// belongs. The leaf may hold one item too many afterwards.
    #[verifier::rlimit(50)]
    pub(crate) fn put_in_leaf<S: Slab<Node<K, V>>>(&mut self, store: &mut S, addr: Address, item: Item<K, V>)
        requires
            old(self).wf(old(store)),
            old(self)@.dom().len() < usize::MAX,
            !old(self)@.dom().contains(item.key),
            old(self).root.is_some(),
            old(self).is_gap_for(old(store).cells(), addr, item.key),
            old(self).in_leaf(old(store).cells(), addr),
        ensures
            final(store).wf(),
            final(self).counted(),
            final(self).root == old(self).root,
            final(self).shape == old(self).shape,
            final(self).model@ == old(self).model@.insert(item.key, item.value),
            tree_ok(
                final(store).cells(),
                final(self).root.unwrap(),
                final(self).shape@,
                Some(addr.id),
                None,
            ),
            model_ok(final(store).cells(), final(self).shape@, final(self).model@),
            holds(final(store).cells(), final(self).shape@, addr.id, addr.offset.as_int(), item.key),
            leaf_put(old(store).cells(), final(store).cells(), addr.id, addr.offset.as_int(), item),
            evolves(old(store).cells(), final(store).cells(), old(self).shape@.nodes, final(self).shape@.nodes),
    {
        let ghost c0 = store.cells();
        let ghost g0 = self.shape@;
        let ghost m0 = self.model@;
        let ghost k = item.key;
        let ghost v = item.value;
        let ghost root = self.root.unwrap();
        let ghost offset = addr.offset.as_int();
        proof {
            assert(node_ok(c0, root, g0, addr.id));
            assert(node_fill(c0, root, None, None, addr.id));
        }
        node_mut(store, addr.id).insert(addr.offset.unwrap(), item, None);
        self.model = Ghost(m0.insert(k, v));
        self.len = self.len + 1;
        proof {
            let c1 = store.cells();
            assert(c1.dom() =~= c0.dom());
            assert(c1[addr.id]@ == (NodeView {
                items: c0[addr.id]@.items.insert(offset, item),
                ..c0[addr.id]@
            }));
            assert(leaf_put_pre(c0, c1, root, g0, addr.id, offset, item));
            lemma_leaf_put(c0, c1, root, g0, m0, addr.id, offset, item);
            assert forall|y: usize| #[trigger] g0.nodes.contains(y) implies c0.dom().contains(y) by {
                assert(node_ok(c0, root, g0, y));
            }
            assert(evolves(c0, c1, g0.nodes, g0.nodes));
        }
    }

    /// Puts `item` at `addr`, a place in a leaf at which the item's key
    /// belongs, and leaves the tree as it then is: the leaf may hold one item
    /// too many, until `rebalance` is called on it. The item stands at
    /// `addr` afterwards.
    pub fn put_at<S: Slab<Node<K, V>>>(&mut self, store: &mut S, addr: Address, item: Item<K, V>)
        requires
            old(self).wf(old(store)),
            old(self)@.dom().len() < usize::MAX,
            !old(self)@.dom().contains(item.key),
            old(self).is_gap_for(old(store).cells(), addr, item.key),
            old(self).in_leaf(old(store).cells(), addr),
        ensures
            total_order::<K>(),
            final(store).wf(),
            final(self).unbalanced_at(final(store).cells(), addr.id),
            final(self)@ == old(self)@.insert(item.key, item.value),
            final(self).nodes() == old(self).nodes(),
            final(self).root() == old(self).root(),
            final(self).is_item_address(final(store).cells(), addr),
            final(self).item_of(final(store).cells(), addr) == item,
            final(store).cells()[addr.id]@.items.len() == old(store).cells()[addr.id]@.items.len() + 1,
            leaf_put(old(store).cells(), final(store).cells(), addr.id, addr.offset.as_int(), item),
            forall|id: usize| #[trigger] final(self).level_of(id) == old(self).level_of(id),
            evolves(old(store).cells(), final(store).cells(), old(self).nodes(), final(self).nodes()),
    {
        proof {
            self.lemma_empty(store.cells());
        }
        self.put_in_leaf(store, addr, item);
    }

    /// Puts `item` at `addr`, a place in a leaf at which the item's key
    /// belongs, or nowhere if the map is empty, and restores the balance of
    /// the tree. Returns the address of the item afterwards. An item in a
    /// leaf has no child to its right: `opt_right_id` is not looked at.
    #[verifier::rlimit(50)]
    pub fn insert_exactly_at<S: Slab<Node<K, V>>>(
        &mut self,
        store: &mut S,
        addr: Address,
        item: Item<K, V>,
        opt_right_id: Option<usize>,
    ) -> (r: Address)
        requires
            old(self).wf(old(store)),
            old(self)@.dom().len() < usize::MAX,
            !old(self)@.dom().contains(item.key),
            if old(self).root().is_none() {
                addr.id == usize::MAX
            } else {
                old(self).is_gap_for(old(store).cells(), addr, item.key) && old(self).in_leaf(
                    old(store).cells(),
                    addr,
                )
            },
        ensures
            final(self).wf(final(store)),
            final(self)@ == old(self)@.insert(item.key, item.value),
            final(self).is_item_address(final(store).cells(), r),
            final(self).item_of(final(store).cells(), r).key == item.key,
            evolves(old(store).cells(), final(store).cells(), old(self).nodes(), final(self).nodes()),
            old(self).root().is_none() ==> final(self).root() == Some(r.id) && r.offset.as_int() == 0
                && lone_leaf(old(store).cells(), final(store).cells(), r.id, item) && final(self).nodes()
                == set![r.id] && final(self).level_of(r.id) == 0,
            old(self).root().is_some() && old(store).cells()[addr.id]@.items.len() < M - 1 ==> leaf_put(
                old(store).cells(),
                final(store).cells(),
                addr.id,
                addr.offset.as_int(),
                item,
            ) && r.id == addr.id && r.offset.as_int() == addr.offset.as_int() && final(self).root()
                == old(self).root() && final(self).nodes() == old(self).nodes(),
    {
        let ghost c0 = store.cells();
        let ghost g0 = self.shape@;
        let ghost m0 = self.model@;
        let ghost k = item.key;
        let ghost v = item.value;
        if addr.is_nowhere() {
            proof {
                if self.root.is_some() {
                    assert(node_ok(c0, self.root.unwrap(), g0, addr.id));
                }
            }
            let id = Self::allocate_node(store, Node::leaf(None, item));
            self.root = Some(id);
            self.len = self.len + 1;
            let ghost g1 = Shape {
                nodes: set![id],
                lo: map![id => None],
                hi: map![id => None],
                level: map![id => 0nat],
            };
            self.shape = Ghost(g1);
            self.model = Ghost(m0.insert(k, v));
            proof {
                let c1 = store.cells();
                let m1 = self.model@;
                assert(m1 =~= old(self)@.insert(k, v));
                assert(c1[id]@.items[0] == item);
                assert(node_local(c1, g1, id)) by {
                    lemma_order_laws::<K>();
                }
                assert(node_ok(c1, id, g1, id));
                assert(node_fill(c1, id, None, None, id));
                assert(tree_ok(c1, id, g1, None, None));
                assert(holds(c1, g1, id, 0, k));
                assert forall|y: usize, i: int| g1.nodes.contains(y) && 0 <= i < c1[y]@.items.len() implies m1.contains_pair(
                    (#[trigger] item_at(c1, y, i)).key,
                    item_at(c1, y, i).value,
                ) by {}
                assert forall|q: K| #[trigger] m1.dom().contains(q) implies exists|y: usize, i: int| #[trigger]
                    holds(c1, g1, y, i, q) by {
                    assert(m0 =~= Map::<K, V>::empty());
                    assert(q == k);
                    assert(holds(c1, g1, id, 0, q));
                }
                let empty_children = Seq::<usize>::empty();
                assert forall|c: usize| c0.dom().contains(c) implies c1.dom().contains(c) && #[trigger] c1[c]
                    == c0[c] by {
                    assert(!empty_children.contains(c));
                }
                assert(g0.nodes =~= Set::<usize>::empty());
                assert(evolves(c0, c1, g0.nodes, g1.nodes));
            }
            Address::new(id, Offset::new(0))
        } else {
            let ghost root = self.root.unwrap();
            self.put_in_leaf(store, addr, item);
            let ghost c1 = store.cells();
            let r = self.rebalance_overflow(store, addr.id, addr, Ghost(k));
            proof {
                assert forall|y: usize| #[trigger] g0.nodes.contains(y) implies c1.dom().contains(y) by {
                    assert(node_ok(c1, root, g0, y));
                }
                lemma_evolves_trans(c0, c1, store.cells(), g0.nodes, g0.nodes, self.shape@.nodes);
            }
            r
        }
    }

    /// Binds `value` to `key`. Returns the value that was bound to the key
    /// before, if there was one.
    pub fn insert<S: Slab<Node<K, V>>>(&mut self, store: &mut S, key: K, value: V) -> (previous: Option<V>)
        requires
            old(self).wf(old(store)),
            old(self)@.dom().len() < usize::MAX,
        ensures
            final(self).wf(final(store)),
            final(self)@ == old(self)@.insert(key, value),
            previous == (if old(self)@.dom().contains(key) {
                Some(old(self)@[key])
            } else {
                None::<V>
            }),
            evolves(old(store).cells(), final(store).cells(), old(self).nodes(), final(self).nodes()),
            old(self).root().is_none() ==> final(self).root().is_some() && lone_leaf(
                old(store).cells(),
                final(store).cells(),
                final(self).root().unwrap(),
                Item { key, value },
            ) && final(self).nodes() == set![final(self).root().unwrap()] && final(self).level_of(
                final(self).root().unwrap(),
            ) == 0,
            old(self)@.dom().contains(key) ==> final(self).root() == old(self).root()
                && final(self).nodes() == old(self).nodes(),
            old(self).root().is_some() && !old(self)@.dom().contains(key) ==> exists|addr: Address|
                {
                    &&& #[trigger] old(self).is_gap_for(old(store).cells(), addr, key)
                    &&& old(self).in_leaf(old(store).cells(), addr)
                    &&& old(store).cells()[addr.id]@.items.len() < M - 1 ==> leaf_put(
                        old(store).cells(),
                        final(store).cells(),
                        addr.id,
                        addr.offset.as_int(),
                        Item { key, value },
                    ) && final(self).root() == old(self).root()
                        && final(self).nodes() == old(self).nodes()
                },
    {
        proof {
            self.lemma_empty(store.cells());
        }
        match self.address_of(store, &key) {
            Ok(addr) => Some(self.replace_value_at(store, addr, value)),
            Err(addr) => {
                self.insert_exactly_at(store, addr, Item::new(key, value), None);
                None
            },
        }
    }
}

} // verus!
