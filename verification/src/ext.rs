//! Addresses: finding the first and the last place of a map and going from
//! one place to the next or the previous one.

use vstd::prelude::*;
use crate::addr::{Address, Offset};
use crate::map::BTreeMap;
use crate::node::{Item, Node, M};
use crate::slab::{Slab, SlabView};
use crate::tree::{
    child_ok, holds, is_next, is_prev, item_at, key_after, lemma_leaf_gap, lemma_next_unique,
    lemma_nodes_in_cells, next_at, next_key, node_fill, node_ok, prev_at, Cells,
};

verus! {

impl<K: Ord, V> BTreeMap<K, V> {
    /// The node at `id`.
    pub fn node<'a, S: SlabView<Node<K, V>>>(&self, store: &'a S, id: usize) -> (node: &'a Node<K, V>)
        requires
            self.wf(store),
            self.nodes().contains(id),
        ensures
            *node == store.cells()[id],
    {
        proof {
            lemma_nodes_in_cells(store.cells(), self.root.unwrap(), self.shape@, None, None);
        }
        store.get(id).unwrap()
    }

    /// The item at `addr`; `None` where `addr` is the place after the last
    /// item of its node or before the first one.
    pub fn item<'a, S: SlabView<Node<K, V>>>(&self, store: &'a S, addr: Address) -> (item: Option<
        &'a Item<K, V>,
    >)
        requires
            self.wf(store),
            self.nodes().contains(addr.id),
        ensures
            item.is_some() <==> self.is_item_address(store.cells(), addr),
            item.is_some() ==> *item.unwrap() == self.item_of(store.cells(), addr)
                && self@.contains_pair(item.unwrap().key, item.unwrap().value),
    {
        proof {
            lemma_nodes_in_cells(store.cells(), self.root.unwrap(), self.shape@, None, None);
        }
        let node = store.get(addr.id).unwrap();
        match addr.offset.value() {
            Some(offset) => {
                let found = node.item(offset);
                proof {
                    if found.is_some() {
                        let it = item_at(store.cells(), addr.id, offset as int);
                        assert(self.model@.contains_pair(it.key, it.value));
                    }
                }
                found
            },
            None => None,
        }
    }

    /// Goes down from the node `id` through the first children to a leaf.
    #[verifier::loop_isolation(false)]
    pub(crate) fn descend_first<S: SlabView<Node<K, V>>>(&self, store: &S, id: usize) -> (leaf: usize)
        requires
            self.wf(store),
            self.nodes().contains(id),
        ensures
            self.nodes().contains(leaf),
            store.cells()[leaf]@.is_leaf(),
            store.cells()[leaf]@.items.len() > 0,
            self.shape@.lo[leaf] == self.shape@.lo[id],
    {
        let ghost cells = store.cells();
        let ghost g = self.shape@;
        let ghost root = self.root.unwrap();
        let mut cur = id;
        loop
            invariant
                self.wf(store),
                cells == store.cells(),
                g == self.shape@,
                self.root == Some(root),
                g.nodes.contains(cur),
                g.lo[cur] == g.lo[id],
            decreases g.level[cur],
        {
            proof {
                lemma_nodes_in_cells(cells, root, g, None, None);
                assert(node_ok(cells, root, g, cur));
                assert(node_fill(cells, root, None, None, cur));
            }
            let node = store.get(cur).unwrap();
            match node.child_id_opt(0) {
                Some(child) => {
                    assert(child_ok(cells, g, cur, 0));
                    cur = child;
                },
                None => {
                    return cur;
                },
            }
        }
    }

    /// Goes down from the node `id` through the last children to a leaf.
    /// Returns the leaf and the number of its items.
    #[verifier::loop_isolation(false)]
    pub(crate) fn descend_last<S: SlabView<Node<K, V>>>(&self, store: &S, id: usize) -> (r: (
        usize,
        usize,
    ))
        requires
            self.wf(store),
            self.nodes().contains(id),
        ensures
            self.nodes().contains(r.0),
            store.cells()[r.0]@.is_leaf(),
            r.1 == store.cells()[r.0]@.items.len(),
            0 < r.1 < M,
            self.shape@.hi[r.0] == self.shape@.hi[id],
    {
        let ghost cells = store.cells();
        let ghost g = self.shape@;
        let ghost root = self.root.unwrap();
        let mut cur = id;
        loop
            invariant
                self.wf(store),
                cells == store.cells(),
                g == self.shape@,
                self.root == Some(root),
                g.nodes.contains(cur),
                g.hi[cur] == g.hi[id],
            decreases g.level[cur],
        {
            proof {
                lemma_nodes_in_cells(cells, root, g, None, None);
                assert(node_ok(cells, root, g, cur));
                assert(node_fill(cells, root, None, None, cur));
            }
            let node = store.get(cur).unwrap();
            let count = node.item_count();
            match node.child_id_opt(count) {
                Some(child) => {
                    assert(child_ok(cells, g, cur, count as int));
                    cur = child;
                },
                None => {
                    return (cur, count);
                },
            }
        }
    }

    /// The address of the first item; `None` if the map is empty.
    pub fn first_item_address<S: SlabView<Node<K, V>>>(&self, store: &S) -> (r: Option<Address>)
        requires
            self.wf(store),
        ensures
            r.is_some() <==> self.root().is_some(),
            r.is_some() ==> {
                &&& self.is_item_address(store.cells(), r.unwrap())
                &&& self.in_leaf(store.cells(), r.unwrap())
                &&& r.unwrap().offset.as_int() == 0
                &&& is_prev(self@, self.item_of(store.cells(), r.unwrap()).key, None)
                &&& self@.dom().contains(self.item_of(store.cells(), r.unwrap()).key)
                &&& self.prev_of(store.cells(), r.unwrap()).is_none()
            },
    {
        match self.root {
            Some(root) => {
                let leaf = self.descend_first(store, root);
                proof {
                    let cells = store.cells();
                    assert(node_ok(cells, root, self.shape@, root));
                    lemma_leaf_gap(cells, root, self.shape@, self.model@, leaf, 0);
                    let it = item_at(cells, leaf, 0);
                    assert(self.model@.contains_pair(it.key, it.value));
                }
                Some(Address::new(leaf, Offset::new(0)))
            },
            None => None,
        }
    }

    /// The first place of the map: the address of the first item, or nowhere
    /// if the map is empty.
    pub fn first_back_address<S: SlabView<Node<K, V>>>(&self, store: &S) -> (r: Address)
        requires
            self.wf(store),
        ensures
            self.root().is_none() ==> r.id == usize::MAX && r.offset.as_int() == 0,
            self.root().is_some() ==> {
                &&& self.is_item_address(store.cells(), r)
                &&& self.in_leaf(store.cells(), r)
                &&& r.offset.as_int() == 0
                &&& is_prev(self@, self.item_of(store.cells(), r).key, None)
                &&& self@.dom().contains(self.item_of(store.cells(), r).key)
                &&& self.prev_of(store.cells(), r).is_none()
            },
    {
        match self.first_item_address(store) {
            Some(addr) => addr,
            None => Address::nowhere(),
        }
    }

    /// The address of the last item; `None` if the map is empty.
    pub fn last_item_address<S: SlabView<Node<K, V>>>(&self, store: &S) -> (r: Option<Address>)
        requires
            self.wf(store),
        ensures
            r.is_some() <==> self.root().is_some(),
            r.is_some() ==> {
                &&& self.is_item_address(store.cells(), r.unwrap())
                &&& self.in_leaf(store.cells(), r.unwrap())
                &&& is_next(self@, self.item_of(store.cells(), r.unwrap()).key, None)
                &&& self@.dom().contains(self.item_of(store.cells(), r.unwrap()).key)
            },
    {
        match self.root {
            Some(root) => {
                let (leaf, count) = self.descend_last(store, root);
                proof {
                    let cells = store.cells();
                    assert(node_ok(cells, root, self.shape@, root));
                    lemma_leaf_gap(cells, root, self.shape@, self.model@, leaf, count as int);
                    let it = item_at(cells, leaf, count - 1);
                    assert(self.model@.contains_pair(it.key, it.value));
                }
                Some(Address::new(leaf, Offset::new(count - 1)))
            },
            None => None,
        }
    }

    /// The last place of the map: the end of the last leaf, or nowhere if the
    /// map is empty.
    pub fn last_valid_address<S: SlabView<Node<K, V>>>(&self, store: &S) -> (r: Address)
        requires
            self.wf(store),
        ensures
            self.root().is_none() ==> r.id == usize::MAX && r.offset.as_int() == 0,
            self.root().is_some() ==> self.is_place(store.cells(), r, None) && self.in_leaf(
                store.cells(),
                r,
            ),
    {
        match self.root {
            Some(root) => {
                let (leaf, count) = self.descend_last(store, root);
                proof {
                    assert(node_ok(store.cells(), root, self.shape@, root));
                }
                Address::new(leaf, Offset::new(count))
            },
            None => Address::nowhere(),
        }
    }

    /// The address of the item at or after the place `addr`: `addr` itself
    /// where it is the address of an item, else the address of the item whose
    /// key follows the node of `addr`. `None` where no item follows, and for
    /// the address nowhere.
    #[verifier::loop_isolation(false)]
    pub fn normalize<S: SlabView<Node<K, V>>>(&self, store: &S, addr: Address) -> (r: Option<Address>)
        requires
            self.wf(store),
            addr.id != usize::MAX ==> self.is_back_address(store.cells(), addr),
        ensures
            addr.id == usize::MAX ==> r.is_none(),
            addr.id != usize::MAX ==> (r.is_some() <==> self.next_of(store.cells(), addr).is_some()),
            r.is_some() ==> {
                &&& self.is_item_address(store.cells(), r.unwrap())
                &&& Some(self.item_of(store.cells(), r.unwrap()).key) == self.next_of(
                    store.cells(),
                    addr,
                )
            },
            self.is_item_address(store.cells(), addr) ==> r == Some(addr),
    {
        if addr.is_nowhere() {
            return None;
        }
        let ghost cells = store.cells();
        let ghost g = self.shape@;
        let ghost root = self.root.unwrap();
        let ghost next = next_at(cells, g, addr.id, addr.offset.as_int());
        let mut id = addr.id;
        let mut offset = addr.offset.unwrap();
        loop
            invariant
                self.wf(store),
                cells == store.cells(),
                g == self.shape@,
                self.root == Some(root),
                g.nodes.contains(id),
                0 <= offset <= cells[id]@.items.len(),
                next_at(cells, g, id, offset as int) == next,
                self.is_item_address(cells, addr) ==> id == addr.id && offset
                    == addr.offset.as_int(),
            decreases g.level[root] - g.level[id],
        {
            proof {
                lemma_nodes_in_cells(cells, root, g, None, None);
                assert(node_ok(cells, root, g, id));
                assert(node_ok(cells, root, g, root));
                assert(node_fill(cells, root, None, None, id));
            }
            let node = store.get(id).unwrap();
            if offset >= node.item_count() {
                match node.parent() {
                    Some(parent_id) => {
                        proof {
                            assert(node_ok(cells, root, g, parent_id));
                            assert(node_fill(cells, root, None, None, parent_id));
                        }
                        let index = store.get(parent_id).unwrap().child_index(id).unwrap();
                        proof {
                            assert(child_ok(cells, g, parent_id, index as int));
                        }
                        offset = index;
                        id = parent_id;
                    },
                    None => {
                        return None;
                    },
                }
            } else {
                let r = Address::new(id, Offset::new(offset));
                proof {
                    if self.is_item_address(cells, addr) {
                        addr.offset.lemma_same(r.offset);
                    }
                }
                return Some(r);
            }
        }
    }

    /// The place in a leaf that stands for the place `addr`: `addr` itself if
    /// it is in a leaf, else the end of the last leaf below the child to the
    /// left of `addr`. The address nowhere stays as it is.
    #[verifier::loop_isolation(false)]
    pub fn leaf_address<S: SlabView<Node<K, V>>>(&self, store: &S, addr: Address) -> (r: Address)
        requires
            self.wf(store),
            addr.id != usize::MAX ==> self.is_back_address(store.cells(), addr),
        ensures
            addr.id == usize::MAX ==> r == addr,
            addr.id != usize::MAX ==> {
                &&& self.is_back_address(store.cells(), r)
                &&& self.in_leaf(store.cells(), r)
                &&& self.next_of(store.cells(), r) == self.next_of(store.cells(), addr)
            },
            addr.id != usize::MAX && self.in_leaf(store.cells(), addr) ==> r == addr,
    {
        if addr.is_nowhere() {
            return addr;
        }
        let ghost cells = store.cells();
        let ghost g = self.shape@;
        let ghost root = self.root.unwrap();
        let ghost next = next_at(cells, g, addr.id, addr.offset.as_int());
        let mut id = addr.id;
        let mut offset = addr.offset.unwrap();
        loop
            invariant
                self.wf(store),
                cells == store.cells(),
                g == self.shape@,
                self.root == Some(root),
                g.nodes.contains(id),
                0 <= offset <= cells[id]@.items.len(),
                offset < M,
                next_at(cells, g, id, offset as int) == next,
                self.in_leaf(cells, addr) ==> id == addr.id && offset == addr.offset.as_int(),
            decreases g.level[id],
        {
            proof {
                lemma_nodes_in_cells(cells, root, g, None, None);
                assert(node_ok(cells, root, g, id));
                assert(node_fill(cells, root, None, None, id));
            }
            let node = store.get(id).unwrap();
            match node.child_id_opt(offset) {
                Some(child_id) => {
                    proof {
                        assert(child_ok(cells, g, id, offset as int));
                        assert(node_ok(cells, root, g, child_id));
                        assert(node_fill(cells, root, None, None, child_id));
                    }
                    id = child_id;
                    offset = store.get(child_id).unwrap().item_count();
                },
                None => {
                    let r = Address::new(id, Offset::new(offset));
                    proof {
                        if self.in_leaf(cells, addr) {
                            addr.offset.lemma_same(r.offset);
                        }
                    }
                    return r;
                },
            }
        }
    }

    /// The address of the item that follows the place `addr`: for an item
    /// the address of the item with the next greater key; for the place
    /// before the first item of a node the address of the first item at or
    /// below the node; for the end of a leaf the address of the item whose key
    /// follows the leaf; for the end of an internal node the address of the
    /// first item below its last child. `None` where no item follows, and for
    /// the address nowhere.
    #[verifier::loop_isolation(false)]
    pub fn next_item_address<S: SlabView<Node<K, V>>>(&self, store: &S, addr: Address) -> (r: Option<
        Address,
    >)
        requires
            self.wf(store),
            addr.id != usize::MAX ==> self.nodes().contains(addr.id) && -1 <= addr.offset.as_int()
                <= store.cells()[addr.id]@.items.len(),
        ensures
            addr.id == usize::MAX ==> r.is_none(),
            addr.id != usize::MAX ==> (r.is_some() <==> self.following(store.cells(), addr).is_some()),
            r.is_some() ==> {
                &&& self.is_item_address(store.cells(), r.unwrap())
                &&& Some(self.item_of(store.cells(), r.unwrap()).key) == self.following(
                    store.cells(),
                    addr,
                )
            },
    {
        if addr.is_nowhere() {
            return None;
        }
        let shifted = self.shift_down(store, addr);
        self.normalize(store, shifted)
    }

    /// The key that follows the place `addr`: for the address of an item the
    /// next greater key of the map; for the place before the first item of a
    /// node the first key of the node's interval; for the end of a leaf the
    /// key that comes after the leaf; for the end of an internal node the key
    /// that comes after its last item.
    pub open(crate) spec fn following(&self, cells: Cells<K, V>, addr: Address) -> Option<K> {
        if self.is_item_address(cells, addr) {
            next_key(self@, self.item_of(cells, addr).key)
        } else if addr.offset.as_int() < 0 {
            key_after(self@, self.shape@.lo[addr.id])
        } else if cells[addr.id]@.is_leaf() {
            self.next_of(cells, addr)
        } else {
            next_key(self@, cells[addr.id]@.items.last().key)
        }
    }

    /// The place in a leaf from which the items that follow the place `addr`
    /// are found: after an item, the next place of the same leaf or the
    /// first place of the first leaf below the child to the right of the
    /// item; before the first item of a node, the first place of the first
    /// leaf at or below the node; at the end of an internal node, the first
    /// place of the first leaf below its last child. The end of a leaf stays
    /// as it is.
    #[verifier::loop_isolation(false)]
    pub(crate) fn shift_down<S: SlabView<Node<K, V>>>(&self, store: &S, addr: Address) -> (r: Address)
        requires
            self.wf(store),
            self.nodes().contains(addr.id),
            -1 <= addr.offset.as_int() <= store.cells()[addr.id]@.items.len(),
        ensures
            self.is_back_address(store.cells(), r),
            self.in_leaf(store.cells(), r),
            self.next_of(store.cells(), r) == self.following(store.cells(), addr),
            self.in_leaf(store.cells(), addr) && addr.offset.as_int() == store.cells()[addr.id]@.items.len()
                ==> r == addr,
            self.is_item_address(store.cells(), addr) && self.in_leaf(store.cells(), addr) ==> r.id
                == addr.id && r.offset.as_int() == addr.offset.as_int() + 1,
    {
        let ghost cells = store.cells();
        let ghost g = self.shape@;
        let ghost root = self.root.unwrap();
        proof {
            lemma_nodes_in_cells(cells, root, g, None, None);
            assert(node_ok(cells, root, g, addr.id));
            assert(node_fill(cells, root, None, None, addr.id));
        }
        let first = store.get(addr.id).unwrap();
        let count = first.item_count();
        let start: usize = match addr.offset.value() {
            Some(offset) => {
                if offset < count {
                    offset + 1
                } else {
                    if first.is_leaf() {
                        return addr;
                    }
                    offset
                }
            },
            None => 0,
        };
        let ghost prev = prev_at(cells, g, addr.id, start as int);
        let mut id = addr.id;
        let mut offset = start;
        loop
            invariant
                g.nodes.contains(id),
                0 <= offset <= cells[id]@.items.len(),
                offset < M,
                prev_at(cells, g, id, offset as int) == prev,
                cells[addr.id]@.is_leaf() ==> id == addr.id && offset == start,
            decreases g.level[id],
        {
            proof {
                assert(node_ok(cells, root, g, id));
                assert(node_fill(cells, root, None, None, id));
            }
            let node = store.get(id).unwrap();
            match node.child_id_opt(offset) {
                Some(child_id) => {
                    proof {
                        assert(child_ok(cells, g, id, offset as int));
                    }
                    id = child_id;
                    offset = 0;
                },
                None => {
                    proof {
                        lemma_leaf_gap(cells, root, g, self.model@, id, offset as int);
                        let next = next_at(cells, g, id, offset as int);
                        match prev {
                            Some(k) => {
                                lemma_next_unique(self.model@, k, next);
                            },
                            None => {
                                if next.is_some() {
                                    crate::tree::lemma_first_unique(self.model@, next.unwrap());
                                }
                            },
                        }
                    }
                    return Address::new(id, Offset::new(offset));
                },
            }
        }
    }

    /// The address of the item that follows the place `addr`, as
    /// `next_item_address` gives it; where no item follows, the place right
    /// after `addr`, which is then the end of the last leaf.
    pub fn next_item_or_back_address<S: SlabView<Node<K, V>>>(&self, store: &S, addr: Address) -> (r:
        Option<Address>)
        requires
            self.wf(store),
            addr.id != usize::MAX ==> self.nodes().contains(addr.id) && -1 <= addr.offset.as_int()
                <= store.cells()[addr.id]@.items.len(),
        ensures
            addr.id == usize::MAX <==> r.is_none(),
            r.is_some() && self.following(store.cells(), addr).is_some() ==> {
                &&& self.is_item_address(store.cells(), r.unwrap())
                &&& Some(self.item_of(store.cells(), r.unwrap()).key) == self.following(
                    store.cells(),
                    addr,
                )
            },
            r.is_some() && self.following(store.cells(), addr).is_none() ==> self.is_place(
                store.cells(),
                r.unwrap(),
                None,
            ),
    {
        if addr.is_nowhere() {
            return None;
        }
        let shifted = self.shift_down(store, addr);
        match self.normalize(store, shifted) {
            Some(next) => Some(next),
            None => Some(shifted),
        }
    }

    /// The key that precedes the place `addr`: the greatest key of the map
    /// that is less than the key that comes at or after the place, or the
    /// greatest key of all where no key comes after the place.
    pub open(crate) spec fn preceding(&self, cells: Cells<K, V>, addr: Address, key: K) -> bool {
        match self.next_of(cells, addr) {
            Some(s) => is_prev(self@, s, Some(key)),
            None => self@.dom().contains(key) && is_next(self@, key, None),
        }
    }

    /// The address of the item that precedes the place `addr`. `None` where
    /// no item precedes it, and for the address nowhere.
    #[verifier::loop_isolation(false)]
    #[verifier::rlimit(50)]
    pub fn previous_item_address<S: SlabView<Node<K, V>>>(&self, store: &S, addr: Address) -> (r:
        Option<Address>)
        requires
            self.wf(store),
            addr.id != usize::MAX ==> self.is_back_address(store.cells(), addr),
        ensures
            addr.id == usize::MAX ==> r.is_none(),
            r.is_some() ==> {
                &&& self.is_item_address(store.cells(), r.unwrap())
                &&& self.preceding(
                    store.cells(),
                    addr,
                    self.item_of(store.cells(), r.unwrap()).key,
                )
            },
            r.is_none() && addr.id != usize::MAX ==> self.next_of(store.cells(), addr).is_some()
                && is_prev(self@, self.next_of(store.cells(), addr).unwrap(), None),
    {
        if addr.is_nowhere() {
            return None;
        }
        let ghost cells = store.cells();
        let ghost g = self.shape@;
        let ghost root = self.root.unwrap();
        let leaf_addr = self.leaf_address(store, addr);
        let ghost next = next_at(cells, g, addr.id, addr.offset.as_int());
        let ghost prev = prev_at(cells, g, leaf_addr.id, leaf_addr.offset.as_int());
        proof {
            lemma_nodes_in_cells(cells, root, g, None, None);
            lemma_leaf_gap(cells, root, g, self.model@, leaf_addr.id, leaf_addr.offset.as_int());
            assert(node_ok(cells, root, g, leaf_addr.id));
            assert(node_fill(cells, root, None, None, leaf_addr.id));
            if next.is_none() {
                assert(prev.is_some()) by {
                    if prev.is_none() {
                        assert(holds(cells, g, leaf_addr.id, 0, cells[leaf_addr.id]@.items[0].key));
                        let it = item_at(cells, leaf_addr.id, 0);
                        assert(self.model@.contains_pair(it.key, it.value));
                    }
                }
            }
        }
        let mut id = leaf_addr.id;
        let mut offset = leaf_addr.offset.unwrap();
        loop
            invariant
                g.nodes.contains(id),
                0 <= offset <= cells[id]@.items.len(),
                prev_at(cells, g, id, offset as int) == prev,
            decreases g.level[root] - g.level[id],
        {
            proof {
                assert(node_ok(cells, root, g, id));
                assert(node_ok(cells, root, g, root));
                assert(node_fill(cells, root, None, None, id));
            }
            if offset > 0 {
                let r = Address::new(id, Offset::new(offset - 1));
                proof {
                    let it = item_at(cells, id, offset - 1);
                    assert(self.model@.contains_pair(it.key, it.value));
                }
                return Some(r);
            }
            let node = store.get(id).unwrap();
            match node.parent() {
                Some(parent_id) => {
                    proof {
                        assert(node_ok(cells, root, g, parent_id));
                        assert(node_fill(cells, root, None, None, parent_id));
                    }
                    let index = store.get(parent_id).unwrap().child_index(id).unwrap();
                    proof {
                        assert(child_ok(cells, g, parent_id, index as int));
                    }
                    offset = index;
                    id = parent_id;
                },
                None => {
                    return None;
                },
            }
        }
    }

    /// The place that follows the place `addr` among the places at and after
    /// items. From a place before the end of its node: the next place in a
    /// leaf, which is the next place of the same leaf or the first place of
    /// the first leaf below the child to the right. From the end of a node:
    /// the place of that node in its parent; `None` at the root, and for the
    /// address nowhere.
    #[verifier::loop_isolation(false)]
    #[verifier::rlimit(50)]
    pub fn next_back_address<S: SlabView<Node<K, V>>>(&self, store: &S, addr: Address) -> (r: Option<
        Address,
    >)
        requires
            self.wf(store),
            addr.id != usize::MAX ==> self.nodes().contains(addr.id) && -1 <= addr.offset.as_int()
                <= store.cells()[addr.id]@.items.len(),
        ensures
            addr.id == usize::MAX ==> r.is_none(),
            addr.id != usize::MAX && addr.offset.as_int() < store.cells()[addr.id]@.items.len() ==> {
                &&& r.is_some()
                &&& self.is_back_address(store.cells(), r.unwrap())
                &&& self.in_leaf(store.cells(), r.unwrap())
                &&& self.prev_of(store.cells(), r.unwrap()) == self.key_before(
                    store.cells(),
                    addr.id,
                    addr.offset.as_int() + 1,
                )
            },
            addr.id != usize::MAX && addr.offset.as_int() == store.cells()[addr.id]@.items.len() ==> (
            r.is_none() <==> self.root() == Some(addr.id)),
            addr.id != usize::MAX && addr.offset.as_int() == store.cells()[addr.id]@.items.len()
                && r.is_some() ==> {
                &&& self.is_back_address(store.cells(), r.unwrap())
                &&& store.cells()[addr.id]@.parent == Some(r.unwrap().id)
                &&& store.cells()[r.unwrap().id]@.children[r.unwrap().offset.as_int()] == addr.id
                &&& self.next_of(store.cells(), r.unwrap()) == self.next_of(store.cells(), addr)
            },
    {
        if addr.is_nowhere() {
            return None;
        }
        let ghost cells = store.cells();
        let ghost g = self.shape@;
        let ghost root = self.root.unwrap();
        proof {
            lemma_nodes_in_cells(cells, root, g, None, None);
            assert(node_ok(cells, root, g, addr.id));
            assert(node_ok(cells, root, g, root));
            assert(node_fill(cells, root, None, None, addr.id));
        }
        let node = store.get(addr.id).unwrap();
        let index: usize = match addr.offset.value() {
            Some(offset) => offset + 1,
            None => 0,
        };
        if index > node.item_count() {
            match node.parent() {
                Some(parent_id) => {
                    proof {
                        assert(node_ok(cells, root, g, parent_id));
                        assert(node_fill(cells, root, None, None, parent_id));
                    }
                    let slot = store.get(parent_id).unwrap().child_index(addr.id).unwrap();
                    proof {
                        assert(child_ok(cells, g, parent_id, slot as int));
                    }
                    return Some(Address::new(parent_id, Offset::new(slot)));
                },
                None => {
                    return None;
                },
            }
        }
        let ghost before = prev_at(cells, g, addr.id, index as int);
        let mut id = addr.id;
        let mut offset = index;
        loop
            invariant
                g.nodes.contains(id),
                0 <= offset <= cells[id]@.items.len(),
                offset < M,
                prev_at(cells, g, id, offset as int) == before,
            decreases g.level[id],
        {
            proof {
                assert(node_ok(cells, root, g, id));
                assert(node_fill(cells, root, None, None, id));
            }
            let node = store.get(id).unwrap();
            match node.child_id_opt(offset) {
                Some(child_id) => {
                    proof {
                        assert(child_ok(cells, g, id, offset as int));
                    }
                    id = child_id;
                    offset = 0;
                },
                None => {
                    return Some(Address::new(id, Offset::new(offset)));
                },
            }
        }
    }

    /// The place that precedes the place `addr` among the places at and
    /// before items. From a place at an item, or at the end of a node: the
    /// place in a leaf before it, which is the previous place of the same
    /// leaf or the last item of the last leaf below the child to the left.
    /// From the place before the first item of a node: the place in the
    /// parent before that node; `None` at the root, and for the address
    /// nowhere.
    #[verifier::loop_isolation(false)]
    pub fn previous_front_address<S: SlabView<Node<K, V>>>(&self, store: &S, addr: Address) -> (r:
        Option<Address>)
        requires
            self.wf(store),
            addr.id != usize::MAX ==> self.nodes().contains(addr.id) && -1 <= addr.offset.as_int()
                <= store.cells()[addr.id]@.items.len(),
        ensures
            addr.id == usize::MAX ==> r.is_none(),
            addr.id != usize::MAX && addr.offset.as_int() >= 0 ==> {
                &&& r.is_some()
                &&& self.is_front_address(store.cells(), r.unwrap())
                &&& self.in_leaf(store.cells(), r.unwrap())
                &&& self.key_at(store.cells(), r.unwrap().id, r.unwrap().offset.as_int() + 1)
                    == self.next_of(store.cells(), addr)
            },
            addr.id != usize::MAX && addr.offset.as_int() == -1 ==> (r.is_none() <==> self.root()
                == Some(addr.id)),
            addr.id != usize::MAX && addr.offset.as_int() == -1 && r.is_some() ==> {
                &&& self.is_front_address(store.cells(), r.unwrap())
                &&& store.cells()[addr.id]@.parent == Some(r.unwrap().id)
                &&& store.cells()[r.unwrap().id]@.children[r.unwrap().offset.as_int() + 1] == addr.id
                &&& self.key_before(store.cells(), r.unwrap().id, r.unwrap().offset.as_int() + 1)
                    == self.key_before(store.cells(), addr.id, 0)
            },
    {
        if addr.is_nowhere() {
            return None;
        }
        let ghost cells = store.cells();
        let ghost g = self.shape@;
        let ghost root = self.root.unwrap();
        proof {
            lemma_nodes_in_cells(cells, root, g, None, None);
            assert(node_ok(cells, root, g, addr.id));
            assert(node_ok(cells, root, g, root));
            assert(node_fill(cells, root, None, None, addr.id));
        }
        match addr.offset.value() {
            Some(offset) => {
                let leaf_addr = self.leaf_address(store, addr);
                proof {
                    assert(node_ok(cells, root, g, leaf_addr.id));
                    assert(node_fill(cells, root, None, None, leaf_addr.id));
                }
                let mut front = leaf_addr.offset;
                front.decr();
                Some(Address::new(leaf_addr.id, front))
            },
            None => {
                let node = store.get(addr.id).unwrap();
                match node.parent() {
                    Some(parent_id) => {
                        proof {
                            assert(node_ok(cells, root, g, parent_id));
                            assert(node_fill(cells, root, None, None, parent_id));
                        }
                        let slot = store.get(parent_id).unwrap().child_index(addr.id).unwrap();
                        proof {
                            assert(child_ok(cells, g, parent_id, slot as int));
                        }
                        let mut front = Offset::new(slot);
                        front.decr();
                        Some(Address::new(parent_id, front))
                    },
                    None => None,
                }
            },
        }
    }
}

} // verus!
