//! Restoring the balance of a tree after an item was taken out of a node:
//! rotation through the parent where a sibling can spare an item, a merge
//! with a sibling where none can, and a new root where the old one is left
//! without items.

use vstd::prelude::*;
use crate::addr::{Address, Offset};
use crate::children::{child_ids, children_of, ids_get, ids_len, ChildIds};
use crate::insert::{
    lemma_evolves_trans, node_mut, root_grown, split_once, split_parts, split_root, split_top,
    split_under,
};
use crate::map::BTreeMap;
use crate::merge::{
    collapsed_cells, lemma_collapsed, lemma_emptied, lemma_merged_item, lemma_merged_model,
    lemma_merged_tree, merged_cells, merged_place, merged_pre, merged_shape,
};
use crate::node::{Balance, Node, NodeView, M, MIN_ITEMS};
use crate::order::total_order;
use crate::rotate::{
    left_cells, left_place, left_pre, left_shape, lemma_left_item, lemma_left_model,
    lemma_left_tree, lemma_right_item, lemma_right_model, lemma_right_tree, right_cells,
    right_place, right_pre, right_shape,
};
use crate::slab::{Slab, SlabView};
use crate::tree::{
    Cells,
    child_at, child_ok, evolves, item_at, item_stays, lemma_children_distinct,
    lemma_nodes_in_cells,
    model_ok, node_fill, node_ok, place_ok, tree_ok, Shape,
};

verus! {

/// Makes `parent` the parent of each of `children`.
pub(crate) fn set_parents<K, V, S: Slab<Node<K, V>>>(
    store: &mut S,
    children: &ChildIds,
    parent: Option<usize>,
)
    requires
        old(store).wf(),
        forall|j: int|
            0 <= j < child_ids(*children).len() ==> old(store).cells().dom().contains(
                #[trigger] child_ids(*children)[j],
            ),
    ensures
        final(store).wf(),
        final(store).cells().dom() == old(store).cells().dom(),
        forall|j: int|
            0 <= j < child_ids(*children).len() ==> final(store).cells()[#[trigger] child_ids(
                *children,
            )[j]]@ == (NodeView { parent, ..old(store).cells()[child_ids(*children)[j]]@ }),
        forall|c: usize|
            old(store).cells().dom().contains(c) && !child_ids(*children).contains(c)
                ==> #[trigger] final(store).cells()[c] == old(store).cells()[c],
{
    let ghost c0 = store.cells();
    let ghost ids = child_ids(*children);
    let count = ids_len(children);
    let mut i: usize = 0;
    while i < count
        invariant
            i <= count,
            count == ids.len(),
            ids == child_ids(*children),
            store.wf(),
            forall|j: int| 0 <= j < ids.len() ==> c0.dom().contains(#[trigger] ids[j]),
            store.cells().dom() == c0.dom(),
            forall|j: int| 0 <= j < i ==> store.cells()[#[trigger] ids[j]]@.parent == parent,
            forall|c: usize|
                c0.dom().contains(c) ==> (#[trigger] store.cells()[c])@.items == c0[c]@.items
                    && store.cells()[c]@.children == c0[c]@.children,
            forall|c: usize|
                c0.dom().contains(c) && (forall|j: int| 0 <= j < i ==> ids[j] != c)
                    ==> #[trigger] store.cells()[c] == c0[c],
        decreases count - i,
    {
        let child = ids_get(children, i);
        let ghost before = store.cells();
        node_mut(store, child).set_parent(parent);
        proof {
            let after = store.cells();
            assert(after.dom() =~= c0.dom());
            assert forall|j: int| 0 <= j < i + 1 implies after[#[trigger] ids[j]]@.parent == parent by {
                if ids[j] != child {
                    assert(after[ids[j]] == before[ids[j]]);
                }
            }
        }
        i = i + 1;
    }
    proof {
        let after = store.cells();
        assert forall|c: usize| c0.dom().contains(c) && !ids.contains(c) implies #[trigger] after[c]
            == c0[c] by {
            assert forall|j: int| 0 <= j < ids.len() implies ids[j] != c by {}
        }
    }
}

/// The node `id` is the root, has children and is left without items.
pub open spec fn root_left_empty<K, V>(cells: Cells<K, V>, root: Option<usize>, id: usize) -> bool {
    root == Some(id) && cells[id]@.items.len() == 0 && !cells[id]@.is_leaf()
}

impl<K: Ord, V> BTreeMap<K, V> {
    /// Lets the child at `deficient_child_index` of the node `id` take an item
    /// from its right sibling through `id`. Returns `false`, and changes
    /// nothing, where there is no right sibling or it cannot spare an item.
    #[verifier::rlimit(50)]
    pub(crate) fn try_rotate_left<S: Slab<Node<K, V>>>(
        &mut self,
        store: &mut S,
        id: usize,
        deficient_child_index: usize,
        addr: &mut Address,
        Ghost(next): Ghost<Option<K>>,
    ) -> (done: bool)
        requires
            total_order::<K>(),
            old(store).wf(),
            old(self).root.is_some(),
            old(self).shape@.nodes.contains(id),
            deficient_child_index < old(store).cells()[id]@.children.len(),
            tree_ok(
                old(store).cells(),
                old(self).root.unwrap(),
                old(self).shape@,
                None,
                Some(old(store).cells()[id]@.children[deficient_child_index as int]),
            ),
            old(store).cells()[old(store).cells()[id]@.children[deficient_child_index as int]]@.items.len()
                < MIN_ITEMS,
            model_ok(old(store).cells(), old(self).shape@, old(self).model@),
            place_ok(
                old(store).cells(),
                old(self).shape@,
                old(addr).id,
                old(addr).offset.as_int(),
                next,
            ),
        ensures
            final(store).wf(),
            final(self).root == old(self).root,
            final(self).len == old(self).len,
            final(self).model == old(self).model,
            !done ==> final(store).cells() == old(store).cells() && final(self).shape == old(
                self,
            ).shape && *final(addr) == *old(addr),
            done <==> deficient_child_index + 1 < old(store).cells()[id]@.children.len() && old(
                store,
            ).cells()[old(store).cells()[id]@.children[deficient_child_index + 1]]@.items.len()
                > MIN_ITEMS,
            done ==> left_cells(
                old(store).cells(),
                final(store).cells(),
                id,
                deficient_child_index as int,
                old(store).cells()[id]@.children[deficient_child_index as int],
                old(store).cells()[id]@.children[deficient_child_index + 1],
            ),
            done ==> (final(addr).id, final(addr).offset.as_int()) == left_place(
                old(store).cells(),
                id,
                deficient_child_index as int,
                old(store).cells()[id]@.children[deficient_child_index as int],
                old(store).cells()[id]@.children[deficient_child_index + 1],
                old(addr).id,
                old(addr).offset.as_int(),
            ),
            item_stays(
                old(store).cells(),
                old(addr).id,
                old(addr).offset.as_int(),
                final(store).cells(),
                final(addr).id,
                final(addr).offset.as_int(),
            ),
            done ==> tree_ok(
                final(store).cells(),
                final(self).root.unwrap(),
                final(self).shape@,
                None,
                None,
            ),
            done ==> model_ok(final(store).cells(), final(self).shape@, final(self).model@),
            done ==> place_ok(
                final(store).cells(),
                final(self).shape@,
                final(addr).id,
                final(addr).offset.as_int(),
                next,
            ),
            done ==> evolves(
                old(store).cells(),
                final(store).cells(),
                old(self).shape@.nodes,
                final(self).shape@.nodes,
            ),
    {
        let ghost c0 = store.cells();
        let ghost g0 = self.shape@;
        let ghost root = self.root.unwrap();
        let ghost i = deficient_child_index as int;
        let ghost d = c0[id]@.children[i];
        proof {
            lemma_nodes_in_cells(c0, root, g0, None, Some(d));
            assert(node_ok(c0, root, g0, id));
            assert(node_fill(c0, root, None, Some(d), id));
            assert(child_ok(c0, g0, id, i));
        }
        let right_sibling_index = deficient_child_index + 1;
        let node = store.get(id).unwrap();
        if right_sibling_index >= node.child_count() {
            return false;
        }
        let right_sibling_id = node.child_id(right_sibling_index);
        let deficient_child_id = node.child_id(deficient_child_index);
        proof {
            assert(child_ok(c0, g0, id, i + 1));
            assert(node_ok(c0, root, g0, right_sibling_id));
            assert(node_ok(c0, root, g0, d));
            lemma_children_distinct(c0, root, g0, id, i, i + 1);
        }
        let popped = node_mut(store, right_sibling_id).pop_left();
        match popped {
            Ok((value, opt_child_id)) => {
                let ghost c1 = store.cells();
                let separator = node_mut(store, id).replace(deficient_child_index, value);
                let ghost c2 = store.cells();
                let left_offset = node_mut(store, deficient_child_id).push_right(
                    separator,
                    opt_child_id,
                );
                let ghost c3 = store.cells();
                proof {
                    if opt_child_id.is_some() {
                        assert(child_ok(c0, g0, right_sibling_id, 0));
                    }
                }
                if let Some(child_id) = opt_child_id {
                    node_mut(store, child_id).set_parent(Some(deficient_child_id));
                }
                let ghost c4 = store.cells();
                let ghost g4 = left_shape(g0, c0, d, right_sibling_id);
                self.shape = Ghost(g4);
                proof {
                    assert(c4.dom() =~= c0.dom());
                    assert(left_cells(c0, c4, id, i, d, right_sibling_id));
                    assert(left_pre(c0, c4, root, g0, id, i, d, right_sibling_id));
                    lemma_left_tree(c0, c4, root, g0, id, i, d, right_sibling_id);
                    lemma_left_model(
                        c0,
                        c4,
                        root,
                        g0,
                        self.model@,
                        id,
                        i,
                        d,
                        right_sibling_id,
                        old(addr).id,
                        old(addr).offset.as_int(),
                        next,
                    );
                    if 0 <= old(addr).offset.as_int() < c0[old(addr).id]@.items.len() {
                        lemma_left_item(
                            c0,
                            c4,
                            root,
                            g0,
                            id,
                            i,
                            d,
                            right_sibling_id,
                            old(addr).id,
                            old(addr).offset.as_int(),
                        );
                    }
                }
                if addr.id == right_sibling_id {
                    if addr.offset.unwrap() == 0 {
                        *addr = Address::new(id, Offset::new(deficient_child_index));
                    } else {
                        *addr = Address::new(addr.id, Offset::new(addr.offset.unwrap() - 1));
                    }
                } else if addr.id == id {
                    if addr.offset.unwrap() == deficient_child_index {
                        *addr = Address::new(deficient_child_id, Offset::new(left_offset));
                    }
                }
                true
            },
            Err(_) => {
                assert(store.cells() =~= c0);
                false
            },
        }
    }

    /// Lets the child at `deficient_child_index` of the node `id` take an item
    /// from its left sibling through `id`. Returns `false`, and changes
    /// nothing, where there is no left sibling or it cannot spare an item.
    #[verifier::rlimit(50)]
    pub(crate) fn try_rotate_right<S: Slab<Node<K, V>>>(
        &mut self,
        store: &mut S,
        id: usize,
        deficient_child_index: usize,
        addr: &mut Address,
        Ghost(next): Ghost<Option<K>>,
    ) -> (done: bool)
        requires
            total_order::<K>(),
            old(store).wf(),
            old(self).root.is_some(),
            old(self).shape@.nodes.contains(id),
            deficient_child_index < old(store).cells()[id]@.children.len(),
            tree_ok(
                old(store).cells(),
                old(self).root.unwrap(),
                old(self).shape@,
                None,
                Some(old(store).cells()[id]@.children[deficient_child_index as int]),
            ),
            old(store).cells()[old(store).cells()[id]@.children[deficient_child_index as int]]@.items.len()
                < MIN_ITEMS,
            model_ok(old(store).cells(), old(self).shape@, old(self).model@),
            place_ok(
                old(store).cells(),
                old(self).shape@,
                old(addr).id,
                old(addr).offset.as_int(),
                next,
            ),
        ensures
            final(store).wf(),
            final(self).root == old(self).root,
            final(self).len == old(self).len,
            final(self).model == old(self).model,
            !done ==> final(store).cells() == old(store).cells() && final(self).shape == old(
                self,
            ).shape && *final(addr) == *old(addr),
            done <==> deficient_child_index > 0 && old(store).cells()[old(
                store,
            ).cells()[id]@.children[deficient_child_index - 1]]@.items.len() > MIN_ITEMS,
            done ==> right_cells(
                old(store).cells(),
                final(store).cells(),
                id,
                deficient_child_index as int,
                old(store).cells()[id]@.children[deficient_child_index as int],
                old(store).cells()[id]@.children[deficient_child_index - 1],
            ),
            done ==> (final(addr).id, final(addr).offset.as_int()) == right_place(
                old(store).cells(),
                id,
                deficient_child_index as int,
                old(store).cells()[id]@.children[deficient_child_index as int],
                old(store).cells()[id]@.children[deficient_child_index - 1],
                old(addr).id,
                old(addr).offset.as_int(),
            ),
            item_stays(
                old(store).cells(),
                old(addr).id,
                old(addr).offset.as_int(),
                final(store).cells(),
                final(addr).id,
                final(addr).offset.as_int(),
            ),
            done ==> tree_ok(
                final(store).cells(),
                final(self).root.unwrap(),
                final(self).shape@,
                None,
                None,
            ),
            done ==> model_ok(final(store).cells(), final(self).shape@, final(self).model@),
            done ==> place_ok(
                final(store).cells(),
                final(self).shape@,
                final(addr).id,
                final(addr).offset.as_int(),
                next,
            ),
            done ==> evolves(
                old(store).cells(),
                final(store).cells(),
                old(self).shape@.nodes,
                final(self).shape@.nodes,
            ),
    {
        if deficient_child_index == 0 {
            return false;
        }
        let ghost c0 = store.cells();
        let ghost g0 = self.shape@;
        let ghost root = self.root.unwrap();
        let ghost i = deficient_child_index as int;
        let ghost d = c0[id]@.children[i];
        proof {
            lemma_nodes_in_cells(c0, root, g0, None, Some(d));
            assert(node_ok(c0, root, g0, id));
            assert(node_fill(c0, root, None, Some(d), id));
            assert(child_ok(c0, g0, id, i));
            assert(child_ok(c0, g0, id, i - 1));
        }
        let left_sibling_index = deficient_child_index - 1;
        let node = store.get(id).unwrap();
        let left_sibling_id = node.child_id(left_sibling_index);
        let deficient_child_id = node.child_id(deficient_child_index);
        proof {
            assert(node_ok(c0, root, g0, left_sibling_id));
            assert(node_ok(c0, root, g0, d));
            lemma_children_distinct(c0, root, g0, id, i - 1, i);
        }
        let popped = node_mut(store, left_sibling_id).pop_right();
        match popped {
            Ok((left_offset, value, opt_child_id)) => {
                let separator = node_mut(store, id).replace(left_sibling_index, value);
                node_mut(store, deficient_child_id).push_left(separator, opt_child_id);
                proof {
                    if opt_child_id.is_some() {
                        assert(child_ok(
                            c0,
                            g0,
                            left_sibling_id,
                            c0[left_sibling_id]@.children.len() - 1,
                        ));
                    }
                }
                if let Some(child_id) = opt_child_id {
                    node_mut(store, child_id).set_parent(Some(deficient_child_id));
                }
                let ghost c4 = store.cells();
                let ghost g4 = right_shape(g0, c0, d, left_sibling_id);
                self.shape = Ghost(g4);
                proof {
                    assert(c4.dom() =~= c0.dom());
                    assert(right_cells(c0, c4, id, i, d, left_sibling_id));
                    assert(right_pre(c0, c4, root, g0, id, i, d, left_sibling_id));
                    lemma_right_tree(c0, c4, root, g0, id, i, d, left_sibling_id);
                    lemma_right_model(
                        c0,
                        c4,
                        root,
                        g0,
                        self.model@,
                        id,
                        i,
                        d,
                        left_sibling_id,
                        old(addr).id,
                        old(addr).offset.as_int(),
                        next,
                    );
                    if 0 <= old(addr).offset.as_int() < c0[old(addr).id]@.items.len() {
                        lemma_right_item(
                            c0,
                            c4,
                            root,
                            g0,
                            id,
                            i,
                            d,
                            left_sibling_id,
                            old(addr).id,
                            old(addr).offset.as_int(),
                        );
                    }
                }
                if addr.id == deficient_child_id {
                    *addr = Address::new(addr.id, Offset::new(addr.offset.unwrap() + 1));
                } else if addr.id == left_sibling_id {
                    if addr.offset.unwrap() == left_offset {
                        *addr = Address::new(id, Offset::new(left_sibling_index));
                    } else if addr.offset.unwrap() > left_offset {
                        *addr = Address::new(deficient_child_id, Offset::new(0));
                    }
                } else if addr.id == id {
                    if addr.offset.unwrap() == left_sibling_index {
                        *addr = Address::new(deficient_child_id, Offset::new(0));
                    }
                }
                true
            },
            Err(_) => {
                assert(store.cells() =~= c0);
                false
            },
        }
    }

    /// Merges the child at `deficient_child_index` of the node `id` with a
    /// sibling: the left one if there is one, else the right one. Returns the
    /// balance of the node `id` afterwards and where the place `addr` is
    /// found.
    #[verifier::rlimit(50)]
    pub(crate) fn merge<S: Slab<Node<K, V>>>(
        &mut self,
        store: &mut S,
        id: usize,
        deficient_child_index: usize,
        addr: Address,
        Ghost(next): Ghost<Option<K>>,
    ) -> (r: (Balance, Address))
        requires
            total_order::<K>(),
            old(store).wf(),
            old(self).root.is_some(),
            old(self).shape@.nodes.contains(id),
            deficient_child_index < old(store).cells()[id]@.children.len(),
            tree_ok(
                old(store).cells(),
                old(self).root.unwrap(),
                old(self).shape@,
                None,
                Some(old(store).cells()[id]@.children[deficient_child_index as int]),
            ),
            old(store).cells()[old(store).cells()[id]@.children[deficient_child_index as int]]@.items.len()
                < MIN_ITEMS,
            deficient_child_index + 1 >= old(store).cells()[id]@.children.len() || old(
                store,
            ).cells()[old(store).cells()[id]@.children[deficient_child_index + 1]]@.items.len()
                <= MIN_ITEMS,
            deficient_child_index == 0 || old(store).cells()[old(
                store,
            ).cells()[id]@.children[deficient_child_index - 1]]@.items.len() <= MIN_ITEMS,
            model_ok(old(store).cells(), old(self).shape@, old(self).model@),
            place_ok(old(store).cells(), old(self).shape@, addr.id, addr.offset.as_int(), next),
        ensures
            final(store).wf(),
            final(self).root == old(self).root,
            final(self).len == old(self).len,
            final(self).model == old(self).model,
            r.0 == final(store).cells()[id]@.balance(),
            final(self).shape@.nodes.contains(id),
            final(self).shape@.level == old(self).shape@.level,
            tree_ok(
                final(store).cells(),
                final(self).root.unwrap(),
                final(self).shape@,
                None,
                Some(id),
            ),
            model_ok(final(store).cells(), final(self).shape@, final(self).model@),
            place_ok(final(store).cells(), final(self).shape@, r.1.id, r.1.offset.as_int(), next),
            ({
                let i = if deficient_child_index > 0 {
                    deficient_child_index - 1
                } else {
                    deficient_child_index as int
                };
                let left = old(store).cells()[id]@.children[i];
                let right = old(store).cells()[id]@.children[i + 1];
                &&& merged_cells(old(store).cells(), final(store).cells(), id, i, left, right)
                &&& (r.1.id, r.1.offset.as_int()) == merged_place(
                    old(store).cells(),
                    id,
                    i,
                    left,
                    right,
                    addr.id,
                    addr.offset.as_int(),
                )
            }),
            item_stays(
                old(store).cells(),
                addr.id,
                addr.offset.as_int(),
                final(store).cells(),
                r.1.id,
                r.1.offset.as_int(),
            ),
            evolves(
                old(store).cells(),
                final(store).cells(),
                old(self).shape@.nodes,
                final(self).shape@.nodes,
            ),
    {
        let ghost c0 = store.cells();
        let ghost g0 = self.shape@;
        let ghost root = self.root.unwrap();
        let ghost d = c0[id]@.children[deficient_child_index as int];
        proof {
            lemma_nodes_in_cells(c0, root, g0, None, Some(d));
            assert(node_ok(c0, root, g0, id));
            assert(node_ok(c0, root, g0, root));
            assert(node_fill(c0, root, None, Some(d), id));
            assert(child_ok(c0, g0, id, deficient_child_index as int));
            assert(node_ok(c0, root, g0, d));
            assert(node_fill(c0, root, None, Some(d), d));
            assert(d != id);
        }
        let left_index: usize = if deficient_child_index > 0 {
            deficient_child_index - 1
        } else {
            deficient_child_index
        };
        let ghost i = left_index as int;
        let ghost l = c0[id]@.children[i];
        let ghost r = c0[id]@.children[i + 1];
        proof {
            assert(child_ok(c0, g0, id, i));
            assert(child_ok(c0, g0, id, i + 1));
            assert(node_ok(c0, root, g0, l));
            assert(node_ok(c0, root, g0, r));
            assert(node_fill(c0, root, None, Some(d), l));
            assert(node_fill(c0, root, None, Some(d), r));
            lemma_children_distinct(c0, root, g0, id, i, i + 1);
        }
        let (offset, left_id, right_id, separator, balance) = node_mut(store, id).merge(
            left_index,
            left_index + 1,
        );
        let right_node = Self::release_node(store, right_id);
        proof {
            right_node.lemma_shaped();
        }
        let children = children_of(&right_node);
        let ghost ids = child_ids(children);
        proof {
            assert forall|j: int| 0 <= j < ids.len() implies store.cells().dom().contains(
                #[trigger] ids[j],
            ) by {
                assert(child_ok(c0, g0, r, j));
            }
        }
        set_parents(store, &children, Some(left_id));
        proof {
            assert forall|j: int| 0 <= j < ids.len() implies ids[j] != left_id && ids[j] != id by {
                assert(child_ok(c0, g0, r, j));
            }
            assert(!ids.contains(left_id));
            assert(!ids.contains(id));
        }
        let left_offset = node_mut(store, left_id).append(separator, right_node);
        let ghost c1 = store.cells();
        let ghost g1 = merged_shape(g0, l, r);
        self.shape = Ghost(g1);
        proof {
            assert(c1.dom() =~= c0.dom().remove(r));
            assert forall|j: int| 0 <= j < c0[r]@.children.len() implies c1[#[trigger] c0[r]@.children[j]]@
                == (NodeView { parent: Some(l), ..c0[c0[r]@.children[j]]@ }) by {
                assert(ids[j] == c0[r]@.children[j]);
                assert(child_ok(c0, g0, r, j));
            }
            assert(merged_cells(c0, c1, id, i, l, r));
            assert(merged_pre(c0, c1, root, g0, d, id, i, l, r));
            lemma_merged_tree(c0, c1, root, g0, d, id, i, l, r);
            lemma_merged_model(
                c0,
                c1,
                root,
                g0,
                self.model@,
                d,
                id,
                i,
                l,
                r,
                addr.id,
                addr.offset.as_int(),
                next,
            );
            if 0 <= addr.offset.as_int() < c0[addr.id]@.items.len() {
                lemma_merged_item(c0, c1, root, g0, d, id, i, l, r, addr.id, addr.offset.as_int());
            }
        }
        let new_addr = if addr.id == id {
            let addr_offset = addr.offset.unwrap();
            if addr_offset == offset {
                Address::new(left_id, Offset::new(left_offset))
            } else if addr_offset > offset {
                Address::new(id, Offset::new(addr_offset - 1))
            } else {
                addr
            }
        } else if addr.id == right_id {
            Address::new(left_id, Offset::new(addr.offset.unwrap() + left_offset + 1))
        } else {
            addr
        };
        (balance, new_addr)
    }

    /// Restores the balance of the tree after an item was taken out of the
    /// node `id`: as long as a node holds too few items it takes one from a
    /// sibling or is merged with one, and a root left without items gives its
    /// place to its child. Returns where the place `addr` is found afterwards;
    /// nowhere if the tree has become empty.
    #[verifier::rlimit(50)]
    pub(crate) fn rebalance_underflow<S: Slab<Node<K, V>>>(
        &mut self,
        store: &mut S,
        id: usize,
        addr: Address,
        Ghost(next): Ghost<Option<K>>,
    ) -> (r: Address)
        requires
            total_order::<K>(),
            old(store).wf(),
            old(self).root.is_some(),
            old(self).shape@.nodes.contains(id),
            tree_ok(old(store).cells(), old(self).root.unwrap(), old(self).shape@, None, Some(id)),
            model_ok(old(store).cells(), old(self).shape@, old(self).model@),
            place_ok(old(store).cells(), old(self).shape@, addr.id, addr.offset.as_int(), next),
        ensures
            final(store).wf(),
            final(self).len == old(self).len,
            final(self).model == old(self).model,
            match final(self).root {
                Some(root) => {
                    &&& tree_ok(final(store).cells(), root, final(self).shape@, None, None)
                    &&& model_ok(final(store).cells(), final(self).shape@, final(self).model@)
                    &&& place_ok(
                        final(store).cells(),
                        final(self).shape@,
                        r.id,
                        r.offset.as_int(),
                        next,
                    )
                },
                None => {
                    &&& final(self).shape@.nodes == Set::<usize>::empty()
                    &&& final(self).model@ == Map::<K, V>::empty()
                    &&& r.id == usize::MAX
                },
            },
            item_stays(
                old(store).cells(),
                addr.id,
                addr.offset.as_int(),
                final(store).cells(),
                r.id,
                r.offset.as_int(),
            ),
            evolves(
                old(store).cells(),
                final(store).cells(),
                old(self).shape@.nodes,
                final(self).shape@.nodes,
            ),
            old(store).cells()[id]@.items.len() >= MIN_ITEMS ==> final(store).cells() == old(
                store,
            ).cells() && r == addr && final(self).root == old(self).root && final(self).shape == old(
                self,
            ).shape,
            root_left_empty(old(store).cells(), old(self).root, id) ==> {
                &&& final(self).root == Some(old(store).cells()[id]@.children[0])
                &&& collapsed_cells(old(store).cells(), final(store).cells(), id)
                &&& final(self).shape@.nodes == old(self).shape@.nodes.remove(id)
                &&& final(self).shape@.level == old(self).shape@.level
                &&& r == addr
            },
            old(self).root == Some(id) && old(store).cells()[id]@.items.len() == 0 && old(
                store,
            ).cells()[id]@.is_leaf() ==> final(self).root.is_none(),
    {
        let ghost c_start = store.cells();
        let ghost nodes_start = self.shape@.nodes;
        let ghost addr_start = addr;
        let ghost g_start = self.shape@;
        let ghost id_start = id;
        let ghost mut first: bool = true;
        proof {
            lemma_nodes_in_cells(c_start, self.root.unwrap(), self.shape@, None, Some(id));
        }
        let mut id = id;
        let mut addr = addr;
        loop
            invariant_except_break
                self.root.is_some(),
                tree_ok(store.cells(), self.root.unwrap(), self.shape@, None, Some(id)),
                self.shape@.nodes.contains(id),
                model_ok(store.cells(), self.shape@, self.model@),
                place_ok(store.cells(), self.shape@, addr.id, addr.offset.as_int(), next),
                first ==> store.cells() == c_start && id == id_start && addr == addr_start && self.shape@
                    == g_start && self.root == old(self).root,
                !first ==> c_start[id_start]@.parent.is_some() && c_start[id_start]@.items.len()
                    < MIN_ITEMS,
            invariant
                total_order::<K>(),
                store.wf(),
                self.len == old(self).len,
                self.model == old(self).model,
                evolves(c_start, store.cells(), nodes_start, self.shape@.nodes),
                forall|y: usize| nodes_start.contains(y) ==> c_start.dom().contains(y),
                item_stays(
                    c_start,
                    addr_start.id,
                    addr_start.offset.as_int(),
                    store.cells(),
                    addr.id,
                    addr.offset.as_int(),
                ),
                old(self).root.is_some(),
                node_ok(c_start, old(self).root.unwrap(), g_start, id_start),
                node_ok(c_start, old(self).root.unwrap(), g_start, old(self).root.unwrap()),
            ensures
                c_start[id_start]@.items.len() >= MIN_ITEMS ==> store.cells() == c_start && addr
                    == addr_start && self.root == old(self).root && self.shape@ == g_start,
                root_left_empty(c_start, old(self).root, id_start) ==> {
                    &&& self.root == Some(c_start[id_start]@.children[0])
                    &&& collapsed_cells(c_start, store.cells(), id_start)
                    &&& self.shape@.nodes == g_start.nodes.remove(id_start)
                    &&& self.shape@.level == g_start.level
                    &&& addr == addr_start
                },
                old(self).root == Some(id_start) && c_start[id_start]@.items.len() == 0
                    && c_start[id_start]@.is_leaf() ==> self.root.is_none(),
                match self.root {
                    Some(root) => {
                        &&& tree_ok(store.cells(), root, self.shape@, None, None)
                        &&& model_ok(store.cells(), self.shape@, self.model@)
                        &&& place_ok(store.cells(), self.shape@, addr.id, addr.offset.as_int(), next)
                    },
                    None => {
                        &&& self.shape@.nodes == Set::<usize>::empty()
                        &&& self.model@ == Map::<K, V>::empty()
                        &&& addr.id == usize::MAX
                    },
                },
            decreases self.shape@.level[self.root.unwrap()] - self.shape@.level[id],
        {
            let ghost c0 = store.cells();
            let ghost g0 = self.shape@;
            let ghost root = self.root.unwrap();
            proof {
                lemma_nodes_in_cells(c0, root, g0, None, Some(id));
                assert(node_ok(c0, root, g0, id));
                assert(node_ok(c0, root, g0, root));
                assert(node_fill(c0, root, None, Some(id), id));
            }
            let node = store.get(id).unwrap();
            let balance = node.balance();
            let parent = node.parent();
            match balance {
                Balance::Underflow(is_empty) => {
                    match parent {
                        Some(parent_id) => {
                            let ghost ix = choose|ix: int| child_at(c0, parent_id, ix, id);
                            assert(child_at(c0, parent_id, ix, id));
                            proof {
                                assert(node_ok(c0, root, g0, parent_id));
                                assert(node_fill(c0, root, None, Some(id), parent_id));
                                assert(child_ok(c0, g0, parent_id, ix));
                            }
                            let index = store.get(parent_id).unwrap().child_index(id).unwrap();
                            proof {
                                if index != ix {
                                    if index < ix {
                                        lemma_children_distinct(c0, root, g0, parent_id, index as int, ix);
                                    } else {
                                        lemma_children_distinct(c0, root, g0, parent_id, ix, index as int);
                                    }
                                }
                            }
                            if self.try_rotate_left(store, parent_id, index, &mut addr, Ghost(next)) {
                                proof {
                                    lemma_evolves_trans(
                                        c_start,
                                        c0,
                                        store.cells(),
                                        nodes_start,
                                        g0.nodes,
                                        self.shape@.nodes,
                                    );
                                }
                                break ;
                            }
                            if self.try_rotate_right(store, parent_id, index, &mut addr, Ghost(next)) {
                                proof {
                                    lemma_evolves_trans(
                                        c_start,
                                        c0,
                                        store.cells(),
                                        nodes_start,
                                        g0.nodes,
                                        self.shape@.nodes,
                                    );
                                }
                                break ;
                            }
                            let (new_balance, new_addr) = self.merge(
                                store,
                                parent_id,
                                index,
                                addr,
                                Ghost(next),
                            );
                            proof {
                                lemma_evolves_trans(
                                    c_start,
                                    c0,
                                    store.cells(),
                                    nodes_start,
                                    g0.nodes,
                                    self.shape@.nodes,
                                );
                            }
                            addr = new_addr;
                            id = parent_id;
                            proof {
                                first = false;
                            }
                        },
                        None => {
                            if is_empty {
                                let new_root = node.child_id_opt(0);
                                match new_root {
                                    Some(root_id) => {
                                        proof {
                                            assert(child_ok(c0, g0, id, 0));
                                        }
                                        node_mut(store, root_id).set_parent(None);
                                        Self::release_node(store, id);
                                        self.root = Some(root_id);
                                        let ghost g1 = Shape { nodes: g0.nodes.remove(id), ..g0 };
                                        self.shape = Ghost(g1);
                                        proof {
                                            let c1 = store.cells();
                                            assert(c1.dom() =~= c0.dom().remove(id));
                                            assert(collapsed_cells(c0, c1, id));
                                            lemma_collapsed(
                                                c0,
                                                c1,
                                                id,
                                                g0,
                                                self.model@,
                                                addr.id,
                                                addr.offset.as_int(),
                                                next,
                                            );
                                            lemma_evolves_trans(
                                                c_start,
                                                c0,
                                                c1,
                                                nodes_start,
                                                g0.nodes,
                                                g1.nodes,
                                            );
                                        }
                                    },
                                    None => {
                                        proof {
                                            lemma_emptied(c0, root, g0, self.model@);
                                            if 0 <= addr.offset.as_int() < c0[addr.id]@.items.len() {
                                                let held = item_at(c0, addr.id, addr.offset.as_int());
                                                assert(self.model@.contains_pair(held.key, held.value));
                                            }
                                        }
                                        Self::release_node(store, id);
                                        self.root = None;
                                        let ghost g1 = Shape { nodes: Set::empty(), ..g0 };
                                        self.shape = Ghost(g1);
                                        addr = Address::nowhere();
                                        proof {
                                            let c1 = store.cells();
                                            assert(evolves(c0, c1, g0.nodes, g1.nodes));
                                            lemma_evolves_trans(
                                                c_start,
                                                c0,
                                                c1,
                                                nodes_start,
                                                g0.nodes,
                                                g1.nodes,
                                            );
                                        }
                                    },
                                }
                            } else {
                                proof {
                                    assert forall|y: usize| #[trigger] g0.nodes.contains(y) implies node_ok(
                                        c0,
                                        root,
                                        g0,
                                        y,
                                    ) && node_fill(c0, root, None, None, y) by {
                                        assert(node_fill(c0, root, None, Some(id), y));
                                    }
                                }
                            }
                            break ;
                        },
                    }
                },
                _ => {
                    proof {
                        assert forall|y: usize| #[trigger] g0.nodes.contains(y) implies node_ok(
                            c0,
                            root,
                            g0,
                            y,
                        ) && node_fill(c0, root, None, None, y) by {
                            assert(node_fill(c0, root, None, Some(id), y));
                        }
                    }
                    break ;
                },
            }
        }
        addr
    }

    /// The map is well formed in `cells` but for the node `id`, which may hold
    /// one item too many or one too few: the state in which an item was put
    /// into the node or taken out of it and the balance of the tree is not
    /// yet restored.
    pub open(crate) spec fn unbalanced_at(&self, cells: Cells<K, V>, id: usize) -> bool {
        &&& self.counted()
        &&& self.root.is_some()
        &&& self.root.unwrap() != usize::MAX
        &&& self.shape@.nodes.contains(id)
        &&& model_ok(cells, self.shape@, self.model@)
        &&& (tree_ok(cells, self.root.unwrap(), self.shape@, Some(id), None) || tree_ok(
            cells,
            self.root.unwrap(),
            self.shape@,
            None,
            Some(id),
        ))
    }

    /// A map that is well formed is all the more well formed but for one
    /// node.
    pub proof fn lemma_balanced_is_unbalanced(&self, cells: Cells<K, V>, id: usize)
        requires
            self.counted(),
            self.inv(cells),
            self.nodes().contains(id),
        ensures
            self.unbalanced_at(cells, id),
    {
        let root = self.root.unwrap();
        assert forall|y: usize| #[trigger] self.shape@.nodes.contains(y) implies node_ok(
            cells,
            root,
            self.shape@,
            y,
        ) && node_fill(cells, root, Some(id), None, y) by {
            assert(node_fill(cells, root, None, None, y));
        }
    }

    /// Restores the balance of the tree from the node `id` upwards, if that
    /// is necessary: as long as a node holds one item too many it is split
    /// and its median moves up; as long as a node holds too few items it
    /// takes one from a sibling or is merged with one; a root left without
    /// items gives its place to its child. Returns where the place `addr` is
    /// found afterwards: the address of the same item, or a place before the
    /// same key; nowhere if the tree has become empty.
    pub fn rebalance<S: Slab<Node<K, V>>>(&mut self, store: &mut S, id: usize, addr: Address) -> (r: Address)
        requires
            total_order::<K>(),
            old(store).wf(),
            old(self).unbalanced_at(old(store).cells(), id),
            old(self).is_item_address(old(store).cells(), addr) || (old(self).is_back_address(
                old(store).cells(),
                addr,
            ) && old(self).in_leaf(old(store).cells(), addr) && old(store).cells()[id]@.items.len()
                < M),
        ensures
            final(self).wf(final(store)),
            final(self)@ == old(self)@,
            match final(self).root() {
                Some(_) => final(self).is_place(
                    final(store).cells(),
                    r,
                    old(self).next_of(old(store).cells(), addr),
                ),
                None => r.id == usize::MAX,
            },
            old(self).is_item_address(old(store).cells(), addr) ==> final(self).is_item_address(
                final(store).cells(),
                r,
            ) && final(self).item_of(final(store).cells(), r) == old(self).item_of(
                old(store).cells(),
                addr,
            ),
            evolves(old(store).cells(), final(store).cells(), old(self).nodes(), final(self).nodes()),
            MIN_ITEMS <= old(store).cells()[id]@.items.len() < M ==> final(store).cells() == old(
                store,
            ).cells() && r == addr && final(self).root() == old(self).root() && final(self).nodes()
                == old(self).nodes(),
            split_once(
                old(store).cells(),
                id,
                final(store).cells(),
                (addr.id, addr.offset.as_int()),
                (r.id, r.offset.as_int()),
            ),
            split_under(old(store).cells(), id) ==> final(self).root() == old(self).root(),
            split_parts(
                old(store).cells(),
                id,
                final(store).cells(),
                (addr.id, addr.offset.as_int()),
                (r.id, r.offset.as_int()),
            ),
            old(store).cells()[id]@.items.len() >= M && final(self).root() != old(self).root()
                ==> final(self).root().is_some() && root_grown(
                old(store).cells(),
                final(store).cells(),
                old(self).root().unwrap(),
                final(self).root().unwrap(),
            ) && final(self).level_of(final(self).root().unwrap()) == old(self).level_of(
                old(self).root().unwrap(),
            ) + 1,
            final(self).root().is_some() ==> split_root(
                old(store).cells(),
                id,
                final(store).cells(),
                final(self).root().unwrap(),
                (addr.id, addr.offset.as_int()),
                (r.id, r.offset.as_int()),
            ),
            split_top(old(store).cells(), id) ==> final(self).root().is_some() && old(self).root()
                == Some(id) && final(self).level_of(final(self).root().unwrap()) == old(
                self,
            ).level_of(id) + 1,
            root_left_empty(old(store).cells(), old(self).root(), id) ==> {
                &&& final(self).root() == Some(old(store).cells()[id]@.children[0])
                &&& collapsed_cells(old(store).cells(), final(store).cells(), id)
                &&& final(self).nodes() == old(self).nodes().remove(id)
                &&& final(self).level_of(final(self).root().unwrap()) + 1 == old(self).level_of(id)
                &&& r == addr
            },
            old(self).root() == Some(id) && old(store).cells()[id]@.items.len() == 0 && old(
                store,
            ).cells()[id]@.is_leaf() ==> final(self).root().is_none(),
    {
        let ghost c0 = store.cells();
        let ghost g0 = self.shape@;
        let ghost root = self.root.unwrap();
        let ghost next = self.next_of(c0, addr);
        let ghost over = tree_ok(c0, root, g0, Some(id), None);
        proof {
            if over {
                lemma_nodes_in_cells(c0, root, g0, Some(id), None);
                assert(node_ok(c0, root, g0, id));
                assert(node_fill(c0, root, Some(id), None, id));
            } else {
                lemma_nodes_in_cells(c0, root, g0, None, Some(id));
                assert(node_ok(c0, root, g0, id));
                assert(node_fill(c0, root, None, Some(id), id));
            }
        }
        let node = store.get(id).unwrap();
        match node.balance() {
            Balance::Overflow => {
                let ghost held = c0[addr.id]@.items[addr.offset.as_int()];
                let ghost k = held.key;
                proof {
                    assert(self.model@.contains_pair(item_at(c0, addr.id, addr.offset.as_int()).key, held.value));
                }
                let r = self.rebalance_overflow(store, id, addr, Ghost(k));
                proof {
                    let found = item_at(store.cells(), r.id, r.offset.as_int());
                    assert(self.model@.contains_pair(found.key, found.value));
                }
                r
            },
            Balance::Underflow(_) => {
                proof {
                    if over {
                        // with so few items the node holds none too many
                        assert forall|y: usize| #[trigger] g0.nodes.contains(y) implies node_ok(
                            c0,
                            root,
                            g0,
                            y,
                        ) && node_fill(c0, root, None, Some(id), y) by {
                            assert(node_fill(c0, root, Some(id), None, y));
                        }
                    }
                }
                proof {
                    if root_left_empty(c0, self.root, id) {
                        assert(node_ok(c0, root, g0, id));
                        assert(child_ok(c0, g0, id, 0));
                    }
                }
                self.rebalance_underflow(store, id, addr, Ghost(next))
            },
            Balance::Balanced => {
                proof {
                    assert forall|y: usize| #[trigger] g0.nodes.contains(y) implies node_ok(
                        c0,
                        root,
                        g0,
                        y,
                    ) && node_fill(c0, root, None, None, y) by {
                        if over {
                            assert(node_fill(c0, root, Some(id), None, y));
                        } else {
                            assert(node_fill(c0, root, None, Some(id), y));
                        }
                    }
                    assert(evolves(c0, c0, g0.nodes, g0.nodes));
                }
                addr
            },
        }
    }
}

} // verus!
