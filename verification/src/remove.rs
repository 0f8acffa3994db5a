//! Removal: taking an item out of a leaf, or putting its predecessor in its
//! place where it stands in an internal node, and restoring the balance.

use vstd::prelude::*;
use crate::addr::{Address, Offset};
use crate::insert::{lemma_evolves_trans, node_mut};
use crate::map::BTreeMap;
use crate::node::{Item, Node, NodeView};
use crate::order::{key_lt, lemma_order_laws, total_order};
use crate::slab::{Slab, SlabView};
use crate::swap::{
    lemma_spine_left, lemma_swapped, pred_key, spine, swap_pre, swapped_cells, swapped_shape,
};
use crate::tree::{
    child_at, child_ok, evolves, holds, in_range, is_next, item_at, lemma_holder,
    lemma_next_unique, lemma_nodes_in_cells, lemma_unique, model_ok, next_key, node_children,
    node_fill, node_local, node_ok, place_ok, tree_ok, Cells, Shape,
};

verus! {

/// The cells after the item at `offset` was taken out of the leaf `id`.
pub open spec fn leaf_taken<K, V>(c0: Cells<K, V>, c1: Cells<K, V>, id: usize, offset: int) -> bool {
    &&& c1.dom() == c0.dom()
    &&& c1[id]@ == (NodeView { items: c0[id]@.items.remove(offset), ..c0[id]@ })
    &&& forall|c: usize| c0.dom().contains(c) && c != id ==> #[trigger] c1[c] == c0[c]
}

/// The key that follows the item at `offset` of the leaf `id`: that of the
/// next item of the leaf, or the end of the leaf's interval.
pub open spec fn after_item<K, V>(c0: Cells<K, V>, g: Shape<K>, id: usize, offset: int) -> Option<K> {
    if offset + 1 < c0[id]@.items.len() {
        Some(c0[id]@.items[offset + 1].key)
    } else {
        g.hi[id]
    }
}

/// Taking an item out of a leaf leaves the nodes of the tree in order, but
/// that the leaf may now hold one item too few.
#[verifier::rlimit(50)]
proof fn lemma_leaf_taken_tree<K: Ord, V>(
    c0: Cells<K, V>,
    c1: Cells<K, V>,
    root: usize,
    g: Shape<K>,
    id: usize,
    offset: int,
)
    requires
        total_order::<K>(),
        tree_ok(c0, root, g, None, None),
        g.nodes.contains(id),
        c0[id]@.is_leaf(),
        0 <= offset < c0[id]@.items.len(),
        leaf_taken(c0, c1, id, offset),
    ensures
        tree_ok(c1, root, g, None, Some(id)),
        evolves(c0, c1, g.nodes, g.nodes),
{
    lemma_order_laws::<K>();
    lemma_nodes_in_cells(c0, root, g, None, None);
    let old_items = c0[id]@.items;
    let new_items = c1[id]@.items;
    assert(node_ok(c0, root, g, id));
    assert(node_fill(c0, root, None, None, id));
    assert forall|y: usize| #[trigger] g.nodes.contains(y) implies node_ok(c1, root, g, y) && node_fill(
        c1,
        root,
        None,
        Some(id),
        y,
    ) by {
        assert(node_ok(c0, root, g, y));
        assert(node_fill(c0, root, None, None, y));
        if y == id {
            assert forall|i: int| 0 <= i < new_items.len() implies in_range(g, id, (#[trigger] new_items[i]).key) by {
                if i < offset {
                    assert(new_items[i] == old_items[i]);
                    assert(in_range(g, id, old_items[i].key));
                } else {
                    assert(new_items[i] == old_items[i + 1]);
                    assert(in_range(g, id, old_items[i + 1].key));
                }
            }
            assert forall|i: int, j: int| 0 <= i < j < new_items.len() implies key_lt(
                #[trigger] new_items[i].key,
                #[trigger] new_items[j].key,
            ) by {
                if i < offset {
                    assert(new_items[i] == old_items[i]);
                } else {
                    assert(new_items[i] == old_items[i + 1]);
                }
                if j < offset {
                    assert(new_items[j] == old_items[j]);
                } else {
                    assert(new_items[j] == old_items[j + 1]);
                }
            }
            assert(node_local(c1, g, id));
            assert(node_children(c1, g, id));
        } else {
            assert(c1[y] == c0[y]);
            assert forall|i: int| 0 <= i < c1[y]@.children.len() implies #[trigger] child_ok(c1, g, y, i) by {
                assert(child_ok(c0, g, y, i));
            }
        }
        if y != root {
            let q = c0[y]@.parent.unwrap();
            let i = choose|i: int| child_at(c0, q, i, y);
            assert(child_at(c0, q, i, y));
            assert(q != id);
            assert(child_at(c1, q, i, y));
        }
    }
}

/// The items of the tree after an item was taken out of a leaf are the
/// entries of the model without the key of the item.
#[verifier::rlimit(50)]
proof fn lemma_leaf_taken_model<K: Ord, V>(
    c0: Cells<K, V>,
    c1: Cells<K, V>,
    root: usize,
    g: Shape<K>,
    model: Map<K, V>,
    id: usize,
    offset: int,
)
    requires
        total_order::<K>(),
        tree_ok(c0, root, g, None, None),
        model_ok(c0, g, model),
        g.nodes.contains(id),
        c0[id]@.is_leaf(),
        0 <= offset < c0[id]@.items.len(),
        leaf_taken(c0, c1, id, offset),
    ensures
        model_ok(c1, g, model.remove(c0[id]@.items[offset].key)),
        model.contains_pair(c0[id]@.items[offset].key, c0[id]@.items[offset].value),
{
    lemma_order_laws::<K>();
    lemma_nodes_in_cells(c0, root, g, None, None);
    let k = c0[id]@.items[offset].key;
    let m1 = model.remove(k);
    let taken = item_at(c0, id, offset);
    assert(model.contains_pair(taken.key, taken.value));
    assert forall|y: usize, i: int| g.nodes.contains(y) && 0 <= i < c1[y]@.items.len() implies m1.contains_pair(
        (#[trigger] item_at(c1, y, i)).key,
        item_at(c1, y, i).value,
    ) by {
        let i0 = if y == id && i >= offset {
            i + 1
        } else {
            i
        };
        assert(item_at(c1, y, i) == item_at(c0, y, i0));
        assert(holds(c0, g, y, i0, item_at(c0, y, i0).key));
        if item_at(c0, y, i0).key == k {
            assert(holds(c0, g, id, offset, k));
            lemma_unique(c0, root, g, None, None, y, i0, id, offset, k);
        }
    }
    assert forall|q: K| #[trigger] m1.dom().contains(q) implies exists|y: usize, i: int| #[trigger]
        holds(c1, g, y, i, q) by {
        let (y0, i0) = choose|y: usize, i: int| holds(c0, g, y, i, q);
        assert(holds(c0, g, y0, i0, q));
        if y0 == id {
            if i0 < offset {
                assert(item_at(c1, id, i0) == item_at(c0, id, i0));
                assert(holds(c1, g, id, i0, q));
            } else {
                assert(i0 != offset);
                assert(item_at(c1, id, i0 - 1) == item_at(c0, id, i0));
                assert(holds(c1, g, id, i0 - 1, q));
            }
        } else {
            assert(item_at(c1, y0, i0) == item_at(c0, y0, i0));
            assert(holds(c1, g, y0, i0, q));
        }
    }
}

/// The place of an item that was taken out of a leaf is the place before
/// the next key of the tree.
#[verifier::rlimit(50)]
proof fn lemma_leaf_taken_gap<K: Ord, V>(
    c0: Cells<K, V>,
    c1: Cells<K, V>,
    root: usize,
    g: Shape<K>,
    model: Map<K, V>,
    id: usize,
    offset: int,
)
    requires
        total_order::<K>(),
        tree_ok(c0, root, g, None, None),
        model_ok(c0, g, model),
        g.nodes.contains(id),
        c0[id]@.is_leaf(),
        0 <= offset < c0[id]@.items.len(),
        leaf_taken(c0, c1, id, offset),
    ensures
        place_ok(c1, g, id, offset, after_item(c0, g, id, offset)),
        is_next(
            model.remove(c0[id]@.items[offset].key),
            c0[id]@.items[offset].key,
            after_item(c0, g, id, offset),
        ),
{
    lemma_order_laws::<K>();
    lemma_nodes_in_cells(c0, root, g, None, None);
    let old_items = c0[id]@.items;
    let new_items = c1[id]@.items;
    let k = old_items[offset].key;
    let next = after_item(c0, g, id, offset);
    let m1 = model.remove(k);
    assert(node_ok(c0, root, g, id));
    assert(node_fill(c0, root, None, None, id));
    assert(in_range(g, id, k));
    if offset < new_items.len() {
        assert(item_at(c1, id, offset) == old_items[offset + 1]);
    }
    // no key of the tree lies between the item and what follows it
    assert forall|q: K| m1.dom().contains(q) && key_lt(k, q) && (match next {
        Some(s) => key_lt(q, s),
        None => true,
    }) implies false by {
        let (m, j) = choose|y: usize, i: int| holds(c0, g, y, i, q);
        assert(holds(c0, g, m, j, q));
        if offset + 1 < old_items.len() {
            assert(in_range(g, id, old_items[offset + 1].key));
        }
        assert(in_range(g, id, q));
        lemma_holder(c0, root, g, None, None, id, m, j, q);
        if j < offset {
            assert(key_lt(old_items[j].key, old_items[offset].key));
        } else if j > offset + 1 {
            assert(key_lt(old_items[offset + 1].key, old_items[j].key));
        }
    }
    if offset + 1 < old_items.len() {
        assert(key_lt(old_items[offset].key, old_items[offset + 1].key));
        let following = item_at(c0, id, offset + 1);
        assert(model.contains_pair(following.key, following.value));
    } else if g.hi[id].is_some() {
        crate::tree::lemma_hi_held(c0, root, g, None, None, id);
        let (m, j) = choose|m: usize, j: int| holds(c0, g, m, j, g.hi[id].unwrap());
        let end = item_at(c0, m, j);
        assert(model.contains_pair(end.key, end.value));
    }
}

/// Taking an item out of a leaf leaves the tree in order, but that the leaf
/// may now hold one item too few; the place of the item is the place before
/// the next key of the tree.
pub proof fn lemma_leaf_taken<K: Ord, V>(
    c0: Cells<K, V>,
    c1: Cells<K, V>,
    root: usize,
    g: Shape<K>,
    model: Map<K, V>,
    id: usize,
    offset: int,
)
    requires
        total_order::<K>(),
        tree_ok(c0, root, g, None, None),
        model_ok(c0, g, model),
        g.nodes.contains(id),
        c0[id]@.is_leaf(),
        0 <= offset < c0[id]@.items.len(),
        leaf_taken(c0, c1, id, offset),
    ensures
        tree_ok(c1, root, g, None, Some(id)),
        model_ok(c1, g, model.remove(c0[id]@.items[offset].key)),
        place_ok(c1, g, id, offset, after_item(c0, g, id, offset)),
        is_next(
            model.remove(c0[id]@.items[offset].key),
            c0[id]@.items[offset].key,
            after_item(c0, g, id, offset),
        ),
        model.contains_pair(c0[id]@.items[offset].key, c0[id]@.items[offset].value),
        evolves(c0, c1, g.nodes, g.nodes),
{
    lemma_leaf_taken_tree(c0, c1, root, g, id, offset);
    lemma_leaf_taken_model(c0, c1, root, g, model, id, offset);
    lemma_leaf_taken_gap(c0, c1, root, g, model, id, offset);
}

impl<K: Ord, V> BTreeMap<K, V> {
    /// Goes down from the node `id` through the first children to a leaf.
    /// Returns the leaf and the path that led to it.
    pub(crate) fn first_leaf_in<S: SlabView<Node<K, V>>>(&self, store: &S, id: usize) -> (r: (
        usize,
        Ghost<Seq<usize>>,
    ))
        requires
            store.wf(),
            self.root.is_some(),
            tree_ok(store.cells(), self.root.unwrap(), self.shape@, None, None),
            self.shape@.nodes.contains(id),
        ensures
            spine(store.cells(), r.1@, id, false),
            r.1@.last() == r.0,
            self.shape@.nodes.contains(r.0),
    {
        let ghost cells = store.cells();
        let ghost g = self.shape@;
        let ghost root = self.root.unwrap();
        let mut cur = id;
        let ghost mut path = seq![id];
        loop
            invariant
                store.wf(),
                cells == store.cells(),
                g == self.shape@,
                self.root == Some(root),
                tree_ok(cells, root, g, None, None),
                g.nodes.contains(cur),
                path.len() >= 1,
                path[0] == id,
                path.last() == cur,
                forall|t: int|
                    0 <= t < path.len() - 1 ==> !cells[#[trigger] path[t]]@.is_leaf() && path[t + 1]
                        == cells[path[t]]@.children[0],
            decreases g.level[cur],
        {
            assert(node_ok(cells, root, g, cur));
            let node = store.get(cur).unwrap();
            match node.child_id_opt(0) {
                Some(child) => {
                    proof {
                        assert(child_ok(cells, g, cur, 0));
                        let longer = path.push(child);
                        assert forall|t: int| 0 <= t < longer.len() - 1 implies !cells[#[trigger] longer[t]]@.is_leaf()
                            && longer[t + 1] == cells[longer[t]]@.children[0] by {
                            if t < path.len() - 1 {
                                assert(longer[t] == path[t]);
                                assert(longer[t + 1] == path[t + 1]);
                            }
                        }
                        path = longer;
                    }
                    cur = child;
                },
                None => {
                    return (cur, Ghost(path));
                },
            }
        }
    }

    /// Goes down from the node `id` through the last children to a leaf and
    /// takes the last item out of it. Returns the item, the leaf and the
    /// path that led to it. The item is expected to be put back into the
    /// tree: the number of entries stays as it is.
    pub(crate) fn remove_rightmost_leaf_of<S: Slab<Node<K, V>>>(&self, store: &mut S, id: usize) -> (r: (
        Item<K, V>,
        usize,
        Ghost<Seq<usize>>,
    ))
        requires
            old(store).wf(),
            self.root.is_some(),
            tree_ok(old(store).cells(), self.root.unwrap(), self.shape@, None, None),
            self.shape@.nodes.contains(id),
            id != self.root.unwrap(),
        ensures
            final(store).wf(),
            spine(old(store).cells(), r.2@, id, true),
            r.2@.last() == r.1,
            self.shape@.nodes.contains(r.1),
            old(store).cells()[r.1]@.items.len() > 0,
            r.0 == old(store).cells()[r.1]@.items.last(),
            final(store).cells().dom() == old(store).cells().dom(),
            final(store).cells()[r.1]@ == (NodeView {
                items: old(store).cells()[r.1]@.items.drop_last(),
                ..old(store).cells()[r.1]@
            }),
            forall|c: usize|
                old(store).cells().dom().contains(c) && c != r.1 ==> #[trigger] final(store).cells()[c]
                    == old(store).cells()[c],
    {
        let ghost cells = store.cells();
        let ghost g = self.shape@;
        let ghost root = self.root.unwrap();
        let mut cur = id;
        let ghost mut path = seq![id];
        loop
            invariant
                store.wf(),
                cells == store.cells(),
                cells == old(store).cells(),
                g == self.shape@,
                self.root == Some(root),
                tree_ok(cells, root, g, None, None),
                g.nodes.contains(cur),
                cur != root,
                path.len() >= 1,
                path[0] == id,
                path.last() == cur,
                forall|t: int|
                    0 <= t < path.len() - 1 ==> !cells[#[trigger] path[t]]@.is_leaf() && path[t + 1]
                        == cells[path[t]]@.children.last(),
            decreases g.level[cur],
        {
            proof {
                lemma_nodes_in_cells(cells, root, g, None, None);
                assert(node_ok(cells, root, g, cur));
                assert(node_fill(cells, root, None, None, cur));
            }
            let taken = node_mut(store, cur).remove_rightmost_leaf();
            match taken {
                Ok(item) => {
                    proof {
                        assert(store.cells().dom() =~= cells.dom());
                    }
                    return (item, cur, Ghost(path));
                },
                Err(child) => {
                    proof {
                        assert(store.cells() =~= cells);
                        assert(child_ok(cells, g, cur, cells[cur]@.children.len() - 1));
                        assert(node_ok(cells, root, g, child));
                        let longer = path.push(child);
                        assert forall|t: int| 0 <= t < longer.len() - 1 implies !cells[#[trigger] longer[t]]@.is_leaf()
                            && longer[t + 1] == cells[longer[t]]@.children.last() by {
                            if t < path.len() - 1 {
                                assert(longer[t] == path[t]);
                                assert(longer[t + 1] == path[t + 1]);
                            }
                        }
                        path = longer;
                    }
                    cur = child;
                },
            }
        }
    }

    /// Takes the item at `addr`, the address of an item in a leaf, out of the
    /// leaf and leaves the tree as it then is: the leaf may hold one item too
    /// few, until `rebalance` is called on it. Afterwards `addr` is the place
    /// before the next greater key.
    #[verifier::rlimit(50)]
    pub fn take_at<S: Slab<Node<K, V>>>(&mut self, store: &mut S, addr: Address) -> (item: Item<K, V>)
        requires
            old(self).wf(old(store)),
            old(self).is_item_address(old(store).cells(), addr),
            old(self).in_leaf(old(store).cells(), addr),
        ensures
            total_order::<K>(),
            final(store).wf(),
            final(self).unbalanced_at(final(store).cells(), addr.id),
            item == old(self).item_of(old(store).cells(), addr),
            old(self)@.contains_pair(item.key, item.value),
            final(self)@ == old(self)@.remove(item.key),
            final(self).nodes() == old(self).nodes(),
            final(self).root() == old(self).root(),
            final(self).is_back_address(final(store).cells(), addr),
            final(self).in_leaf(final(store).cells(), addr),
            final(store).cells()[addr.id]@.items.len() + 1 == old(store).cells()[addr.id]@.items.len(),
            leaf_taken(old(store).cells(), final(store).cells(), addr.id, addr.offset.as_int()),
            forall|id: usize| #[trigger] final(self).level_of(id) == old(self).level_of(id),
            final(self).is_place(final(store).cells(), addr, next_key(final(self)@, item.key)),
            evolves(old(store).cells(), final(store).cells(), old(self).nodes(), final(self).nodes()),
    {
        let ghost c0 = store.cells();
        let ghost g0 = self.shape@;
        let ghost m0 = self.model@;
        let ghost root = self.root.unwrap();
        let ghost offset = addr.offset.as_int();
        let ghost k = c0[addr.id]@.items[offset].key;
        proof {
            lemma_nodes_in_cells(c0, root, g0, None, None);
            assert(node_ok(c0, root, g0, addr.id));
            assert(node_ok(c0, root, g0, root));
            let held = item_at(c0, addr.id, offset);
            assert(m0.contains_pair(held.key, held.value));
            vstd::set_lib::lemma_set_empty_equivalency_len(m0.dom());
        }
        self.len = self.len - 1;
        let taken = node_mut(store, addr.id).leaf_remove(addr.offset.unwrap());
        self.model = Ghost(m0.remove(k));
        proof {
            let c1 = store.cells();
            let next = after_item(c0, g0, addr.id, offset);
            assert(c1.dom() =~= c0.dom());
            lemma_leaf_taken(c0, c1, root, g0, m0, addr.id, offset);
            lemma_next_unique(self.model@, k, next);
        }
        taken.unwrap().unwrap()
    }

    /// Takes the item at `addr`, a place in a node of the map, out of the
    /// map and restores the balance of the tree. Returns the item and the
    /// place at which it stood: the place before the next greater key, which
    /// is nowhere if the map has become empty. Where no item stands at
    /// `addr`, nothing changes and nothing is returned.
    pub fn remove_at<S: Slab<Node<K, V>>>(&mut self, store: &mut S, addr: Address) -> (r: Option<
        (Item<K, V>, Address),
    >)
        requires
            old(self).wf(old(store)),
            old(self).nodes().contains(addr.id),
        ensures
            final(self).wf(final(store)),
            r.is_some() <==> old(self).is_item_address(old(store).cells(), addr),
            r.is_none() ==> final(self)@ == old(self)@ && final(self).nodes() == old(self).nodes()
                && final(self).root() == old(self).root() && final(store).cells() == old(store).cells(),
            r.is_some() ==> {
                &&& r.unwrap().0 == old(self).item_of(old(store).cells(), addr)
                &&& old(self)@.contains_pair(r.unwrap().0.key, r.unwrap().0.value)
                &&& final(self)@ == old(self)@.remove(r.unwrap().0.key)
                &&& match final(self).root() {
                    Some(_) => final(self).is_place(
                        final(store).cells(),
                        r.unwrap().1,
                        next_key(final(self)@, r.unwrap().0.key),
                    ),
                    None => r.unwrap().1.id == usize::MAX,
                }
            },
            evolves(old(store).cells(), final(store).cells(), old(self).nodes(), final(self).nodes()),
    {
        if self.item(&*store, addr).is_none() {
            proof {
                self.lemma_nodes_occupied(store.cells());
                lemma_no_change(store.cells(), self.shape@.nodes, self.root, self.shape@);
            }
            return None;
        }
        self.remove_item_at(store, addr)
    }

    /// Takes the item at `addr` out of the map and restores the balance of
    /// the tree. Returns the item and the place at which it stood.
    #[verifier::rlimit(50)]
    pub(crate) fn remove_item_at<S: Slab<Node<K, V>>>(&mut self, store: &mut S, addr: Address) -> (r: Option<
        (Item<K, V>, Address),
    >)
        requires
            old(self).wf(old(store)),
            old(self).is_item_address(old(store).cells(), addr),
        ensures
            final(self).wf(final(store)),
            r.is_some(),
            r.unwrap().0 == old(self).item_of(old(store).cells(), addr),
            old(self)@.contains_pair(r.unwrap().0.key, r.unwrap().0.value),
            final(self)@ == old(self)@.remove(r.unwrap().0.key),
            match final(self).root() {
                Some(_) => final(self).is_place(
                    final(store).cells(),
                    r.unwrap().1,
                    next_key(final(self)@, r.unwrap().0.key),
                ),
                None => r.unwrap().1.id == usize::MAX,
            },
            evolves(old(store).cells(), final(store).cells(), old(self).nodes(), final(self).nodes()),
    {
        let ghost c0 = store.cells();
        let ghost g0 = self.shape@;
        let ghost m0 = self.model@;
        let ghost root = self.root.unwrap();
        let ghost offset = addr.offset.as_int();
        let ghost k = c0[addr.id]@.items[offset].key;
        proof {
            lemma_nodes_in_cells(c0, root, g0, None, None);
            assert(node_ok(c0, root, g0, addr.id));
            assert(node_ok(c0, root, g0, root));
            let item = item_at(c0, addr.id, offset);
            assert(m0.contains_pair(item.key, item.value));
            vstd::set_lib::lemma_set_empty_equivalency_len(m0.dom());
        }
        self.len = self.len - 1;
        let taken = node_mut(store, addr.id).leaf_remove(addr.offset.unwrap());
        match taken {
            Some(Ok(item)) => {
                let ghost c1 = store.cells();
                let ghost next = after_item(c0, g0, addr.id, offset);
                self.model = Ghost(m0.remove(k));
                proof {
                    assert(c1.dom() =~= c0.dom());
                    lemma_leaf_taken(c0, c1, root, g0, m0, addr.id, offset);
                    lemma_next_unique(self.model@, k, next);
                    lemma_nodes_in_cells(c1, root, g0, None, Some(addr.id));
                }
                let new_addr = self.rebalance_underflow(store, addr.id, addr, Ghost(next));
                proof {
                    lemma_evolves_trans(c0, c1, store.cells(), g0.nodes, g0.nodes, self.shape@.nodes);
                }
                Some((item, new_addr))
            },
            Some(Err(left_child_id)) => {
                proof {
                    assert(store.cells() =~= c0);
                    assert(child_ok(c0, g0, addr.id, offset));
                    assert(child_ok(c0, g0, addr.id, offset + 1));
                    assert(node_ok(c0, root, g0, left_child_id));
                }
                let right_child_id = store.get(addr.id).unwrap().child_id(addr.offset.unwrap() + 1);
                let (far_id, Ghost(right)) = self.first_leaf_in(store, right_child_id);
                let (separator, leaf_id, Ghost(left)) = self.remove_rightmost_leaf_of(
                    store,
                    left_child_id,
                );
                proof {
                    assert(swap_pre(c0, root, g0, addr.id, offset, left, right));
                    lemma_spine_left(c0, root, g0, addr.id, offset, left, right, left.len() - 1);
                    crate::swap::lemma_spine_right(
                        c0,
                        root,
                        g0,
                        addr.id,
                        offset,
                        left,
                        right,
                        right.len() - 1,
                    );
                    assert(leaf_id != addr.id);
                }
                let item = node_mut(store, addr.id).replace(addr.offset.unwrap(), separator);
                let ghost c1 = store.cells();
                let ghost g1 = swapped_shape(g0, left, right, pred_key(c0, left));
                let ghost next = Some(c0[far_id]@.items[0].key);
                self.shape = Ghost(g1);
                self.model = Ghost(m0.remove(k));
                proof {
                    assert(c1.dom() =~= c0.dom());
                    assert(swapped_cells(c0, c1, addr.id, offset, leaf_id));
                    lemma_swapped(c0, c1, root, g0, m0, addr.id, offset, left, right);
                    lemma_next_unique(self.model@, k, next);
                    lemma_nodes_in_cells(c1, root, g1, None, Some(leaf_id));
                }
                let new_addr = self.rebalance_underflow(
                    store,
                    leaf_id,
                    Address::new(far_id, Offset::new(0)),
                    Ghost(next),
                );
                proof {
                    lemma_evolves_trans(c0, c1, store.cells(), g0.nodes, g1.nodes, self.shape@.nodes);
                }
                Some((item, new_addr))
            },
            None => {
                proof {
                    assert(false);
                }
                None
            },
        }
    }

    /// Takes the entry with the key `key` out of the map. Returns the value
    /// that was bound to the key, if there was one.
    pub fn remove<S: Slab<Node<K, V>>>(&mut self, store: &mut S, key: &K) -> (value: Option<V>)
        requires
            old(self).wf(old(store)),
        ensures
            final(self).wf(final(store)),
            final(self)@ == old(self)@.remove(*key),
            value == (if old(self)@.dom().contains(*key) {
                Some(old(self)@[*key])
            } else {
                None::<V>
            }),
            evolves(old(store).cells(), final(store).cells(), old(self).nodes(), final(self).nodes()),
    {
        match self.address_of(store, key) {
            Ok(addr) => {
                let (item, _) = self.remove_at(store, addr).unwrap();
                Some(item.into_value())
            },
            Err(_) => {
                proof {
                    assert(self@.remove(*key) =~= self@);
                    lemma_no_change(store.cells(), self.shape@.nodes, self.root, self.shape@);
                }
                None
            },
        }
    }

    /// Takes the entry with the key `key` out of the map and returns it, if
    /// there is one.
    pub fn remove_entry<S: Slab<Node<K, V>>>(&mut self, store: &mut S, key: &K) -> (entry: Option<
        (K, V),
    >)
        requires
            old(self).wf(old(store)),
        ensures
            final(self).wf(final(store)),
            final(self)@ == old(self)@.remove(*key),
            entry == (if old(self)@.dom().contains(*key) {
                Some((*key, old(self)@[*key]))
            } else {
                None::<(K, V)>
            }),
            evolves(old(store).cells(), final(store).cells(), old(self).nodes(), final(self).nodes()),
    {
        match self.address_of(store, key) {
            Ok(addr) => {
                let (item, _) = self.remove_at(store, addr).unwrap();
                Some(item.into_pair())
            },
            Err(_) => {
                proof {
                    assert(self@.remove(*key) =~= self@);
                    lemma_no_change(store.cells(), self.shape@.nodes, self.root, self.shape@);
                }
                None
            },
        }
    }
}

/// Cells that stay as they are evolve.
pub proof fn lemma_no_change<K: Ord, V>(
    cells: Cells<K, V>,
    nodes: Set<usize>,
    root: Option<usize>,
    g: Shape<K>,
)
    requires
        g.nodes == nodes,
        root.is_some() ==> tree_ok(cells, root.unwrap(), g, None, None),
        root.is_none() ==> nodes == Set::<usize>::empty(),
    ensures
        evolves(cells, cells, nodes, nodes),
{
    if root.is_some() {
        lemma_nodes_in_cells(cells, root.unwrap(), g, None, None);
    }
}

} // verus!
