//! An ordered map shaped as a B-tree whose nodes live in a slab that the
//! caller supplies. Several maps can share one slab: each operation takes the
//! slab as an argument and touches only the nodes of its own map.

use vstd::prelude::*;
use crate::addr::{Address, Offset};
use crate::node::{Item, Node};
use crate::order::{key_lt, lemma_order_laws, total_order};
use crate::slab::{Slab, SlabView};
use crate::tree::{
    child_ok, in_range, item_at, lemma_absent, model_ok, node_fill, node_ok, tree_ok, Cells, Shape,
};

verus! {

/// A map from keys to values, kept in key order.
///
/// The map itself is a small header: the index of the root node and the
/// number of entries. The nodes live in a slab, which every operation takes
/// as an argument.
#[verifier::reject_recursive_types(K)]
pub struct BTreeMap<K, V> {
    pub(crate) root: Option<usize>,
    pub(crate) len: usize,
    pub(crate) shape: Ghost<Shape<K>>,
    pub(crate) model: Ghost<Map<K, V>>,
}

impl<K, V> View for BTreeMap<K, V> {
    type V = Map<K, V>;

    open(crate) spec fn view(&self) -> Map<K, V> {
        self.model@
    }
}

impl<K, V> BTreeMap<K, V> {
    /// A copy of the header of the map. A map and the copy of its header are the
    /// same map: only one of the two may be changed from then on.
    pub(crate) fn header(&self) -> (copy: Self)
        ensures
            copy == *self,
    {
        BTreeMap { root: self.root, len: self.len, shape: self.shape, model: self.model }
    }
}

/// The value that `model` binds to `key`, if it binds one.
pub open spec fn lookup<K, V>(model: Map<K, V>, key: K) -> Option<V> {
    if model.dom().contains(key) {
        Some(model[key])
    } else {
        None
    }
}

impl<K: Ord, V> BTreeMap<K, V> {
    /// The cells of the slab that are the nodes of this map.
    pub open(crate) spec fn nodes(&self) -> Set<usize> {
        self.shape@.nodes
    }

    /// The index of the root node.
    pub open(crate) spec fn root(&self) -> Option<usize> {
        self.root
    }

    /// The nodes of this map form a B-tree in `cells` whose items are the
    /// entries of the map.
    pub open(crate) spec fn inv(&self, cells: Cells<K, V>) -> bool {
        &&& match self.root {
            Some(root) => {
                &&& root != usize::MAX
                &&& tree_ok(cells, root, self.shape@, None, None)
                &&& model_ok(cells, self.shape@, self.model@)
            },
            None => self.shape@.nodes == Set::<usize>::empty() && self.model@ == Map::<
                K,
                V,
            >::empty(),
        }
    }

    /// The map is well formed in `store`: the keys are totally ordered, the
    /// slab is in order, and the nodes of the map form a B-tree in it.
    pub open spec fn wf<S: SlabView<Node<K, V>>>(&self, store: &S) -> bool {
        &&& total_order::<K>()
        &&& store.wf()
        &&& self.counted()
        &&& self.inv(store.cells())
    }

    /// The recorded number of entries is the number of entries.
    pub open(crate) spec fn counted(&self) -> bool {
        self.model@.dom().finite() && self.len == self.model@.dom().len()
    }

    /// `addr` names an item of the map.
    pub open(crate) spec fn is_item_address(&self, cells: Cells<K, V>, addr: Address) -> bool {
        &&& self.shape@.nodes.contains(addr.id)
        &&& 0 <= addr.offset.as_int() < cells[addr.id]@.items.len()
    }

    /// The item that `addr` names.
    pub open(crate) spec fn item_of(&self, cells: Cells<K, V>, addr: Address) -> Item<K, V> {
        cells[addr.id]@.items[addr.offset.as_int()]
    }

    /// `addr` is a place in a node of the map at which an item with the key
    /// `k` could stand: the key lies inside the node's interval, after the
    /// items to the left of the place and before those to the right.
    pub open(crate) spec fn is_gap_for(&self, cells: Cells<K, V>, addr: Address, k: K) -> bool {
        let n = cells[addr.id]@;
        let offset = addr.offset.as_int();
        &&& self.shape@.nodes.contains(addr.id)
        &&& 0 <= offset <= n.items.len()
        &&& in_range(self.shape@, addr.id, k)
        &&& forall|j: int| 0 <= j < offset ==> key_lt((#[trigger] n.items[j]).key, k)
        &&& forall|j: int| offset <= j < n.items.len() ==> key_lt(k, (#[trigger] n.items[j]).key)
    }

    /// `addr` is the place of the map before the key `next`: the address of
    /// the item with that key, or the end of the leaf whose interval ends at
    /// it. With no `next` it is the end of the last leaf.
    pub open(crate) spec fn is_place(&self, cells: Cells<K, V>, addr: Address, next: Option<K>) -> bool {
        crate::tree::place_ok(cells, self.shape@, addr.id, addr.offset.as_int(), next)
    }

    /// `addr` is a place in a node of the map: at an item or right after the
    /// last one.
    pub open(crate) spec fn is_back_address(&self, cells: Cells<K, V>, addr: Address) -> bool {
        &&& self.shape@.nodes.contains(addr.id)
        &&& 0 <= addr.offset.as_int() <= cells[addr.id]@.items.len()
    }

    /// `addr` is a place in a node of the map: at an item or right before the
    /// first one.
    pub open(crate) spec fn is_front_address(&self, cells: Cells<K, V>, addr: Address) -> bool {
        &&& self.shape@.nodes.contains(addr.id)
        &&& -1 <= addr.offset.as_int() < cells[addr.id]@.items.len()
    }

    /// The key that comes at or after the place `addr`: that of the item at
    /// the place, or the key at which the interval of the node ends.
    pub open(crate) spec fn next_of(&self, cells: Cells<K, V>, addr: Address) -> Option<K> {
        crate::tree::next_at(cells, self.shape@, addr.id, addr.offset.as_int())
    }

    /// The key that comes before the place `addr`: that of the item to its
    /// left, or the key at which the interval of the node begins.
    pub open(crate) spec fn prev_of(&self, cells: Cells<K, V>, addr: Address) -> Option<K> {
        crate::tree::prev_at(cells, self.shape@, addr.id, addr.offset.as_int())
    }

    /// The key that comes at or after the place `offset` of the node `id`.
    pub open(crate) spec fn key_at(&self, cells: Cells<K, V>, id: usize, offset: int) -> Option<K> {
        crate::tree::next_at(cells, self.shape@, id, offset)
    }

    /// The key that comes before the place `offset` of the node `id`.
    pub open(crate) spec fn key_before(&self, cells: Cells<K, V>, id: usize, offset: int) -> Option<
        K,
    > {
        crate::tree::prev_at(cells, self.shape@, id, offset)
    }

    /// The height of the node `id` above the leaves.
    pub open(crate) spec fn level_of(&self, id: usize) -> nat {
        self.shape@.level[id]
    }

    /// `addr` is in a leaf of the map.
    pub open(crate) spec fn in_leaf(&self, cells: Cells<K, V>, addr: Address) -> bool {
        self.shape@.nodes.contains(addr.id) && cells[addr.id]@.is_leaf()
    }

    /// Maps that share a slab do not disturb one another: while another
    /// tree, whose nodes are none of this map's, changes the cells of the
    /// slab, this map stays what it is, and the two still share no node.
    pub proof fn lemma_frame(
        &self,
        before: Cells<K, V>,
        after: Cells<K, V>,
        other_before: Set<usize>,
        other_after: Set<usize>,
    )
        requires
            self.inv(before),
            crate::tree::evolves(before, after, other_before, other_after),
            self.nodes().disjoint(other_before),
        ensures
            self.inv(after),
            self.nodes().disjoint(other_after),
            forall|id: usize| self.nodes().contains(id) ==> after.dom().contains(id) && after[id]
                == before[id],
    {
        if self.root.is_some() {
            let root = self.root.unwrap();
            crate::tree::lemma_nodes_in_cells(before, root, self.shape@, None, None);
            assert forall|y: usize| self.shape@.nodes.contains(y) implies after.dom().contains(y)
                && after[y] == before[y] by {
                assert(before.dom().contains(y));
                assert(!other_before.contains(y));
            }
            crate::tree::lemma_tree_frame(before, after, root, self.shape@, self.model@);
            assert forall|y: usize| self.shape@.nodes.contains(y) implies !other_after.contains(y) by {
                if other_after.contains(y) {
                    assert(before.dom().contains(y));
                    assert(other_before.contains(y));
                }
            }
        }
    }

    /// A map without a root is the empty map, and only that one.
    pub proof fn lemma_empty(&self, cells: Cells<K, V>)
        requires
            total_order::<K>(),
            self.counted(),
            self.inv(cells),
        ensures
            self.root().is_none() <==> self@.dom().len() == 0,
            self.root().is_none() <==> self@ == Map::<K, V>::empty(),
            self.root().is_none() <==> self.nodes() == Set::<usize>::empty(),
    {
        if self.root.is_some() {
            let root = self.root.unwrap();
            assert(node_ok(cells, root, self.shape@, root));
            assert(node_fill(cells, root, None, None, root));
            let it = item_at(cells, root, 0);
            assert(self.model@.contains_pair(it.key, it.value));
            vstd::set_lib::lemma_set_empty_equivalency_len(self.model@.dom());
        }
    }

    /// A map stays what it is while the cells of its nodes stay as they are.
    pub proof fn lemma_kept(&self, before: Cells<K, V>, after: Cells<K, V>)
        requires
            self.inv(before),
            forall|id: usize| self.nodes().contains(id) ==> after.dom().contains(id) && after[id]
                == before[id],
        ensures
            self.inv(after),
    {
        if self.root.is_some() {
            crate::tree::lemma_tree_frame(before, after, self.root.unwrap(), self.shape@, self.model@);
        }
    }

    /// The nodes of the map are occupied cells.
    pub proof fn lemma_nodes_occupied(&self, cells: Cells<K, V>)
        requires
            self.inv(cells),
        ensures
            forall|id: usize| self.nodes().contains(id) ==> cells.dom().contains(id),
    {
        if self.root.is_some() {
            crate::tree::lemma_nodes_in_cells(cells, self.root.unwrap(), self.shape@, None, None);
        }
    }

    /// An item of the map is an entry of the map.
    pub proof fn lemma_item_is_entry(&self, cells: Cells<K, V>, addr: Address)
        requires
            self.inv(cells),
            self.is_item_address(cells, addr),
        ensures
            self@.contains_pair(self.item_of(cells, addr).key, self.item_of(cells, addr).value),
    {
        assert(self.root.is_some());
        let item = item_at(cells, addr.id, addr.offset.as_int());
    }

    /// An entry of the map is an item of the map: the view of a map holds
    /// what the nodes of the map hold, and nothing else.
    pub proof fn lemma_entry_is_item(&self, cells: Cells<K, V>, k: K)
        requires
            self.inv(cells),
            self@.dom().contains(k),
        ensures
            exists|addr: Address| #[trigger]
                self.is_item_address(cells, addr) && self.item_of(cells, addr) == (Item {
                    key: k,
                    value: self@[k],
                }),
    {
        assert(self.root.is_some());
        let root = self.root.unwrap();
        let (id, i) = choose|id: usize, i: int| crate::tree::holds(cells, self.shape@, id, i, k);
        assert(crate::tree::holds(cells, self.shape@, id, i, k));
        assert(node_ok(cells, root, self.shape@, id));
        assert(node_fill(cells, root, None, None, id));
        Offset::lemma_at(i);
        let addr = Address { id, offset: Offset::at(i) };
        let item = item_at(cells, id, i);
        assert(self.model@.contains_pair(item.key, item.value));
        assert(self.is_item_address(cells, addr));
    }

    /// Creates an empty map. It has no nodes, so it is well formed in every
    /// slab.
    pub fn new() -> (map: Self)
        ensures
            map@ == Map::<K, V>::empty(),
            map.nodes() == Set::<usize>::empty(),
            map.counted(),
            forall|cells: Cells<K, V>| map.inv(cells),
    {
        BTreeMap {
            root: None,
            len: 0,
            shape: Ghost(
                Shape {
                    nodes: Set::empty(),
                    lo: Map::empty(),
                    hi: Map::empty(),
                    level: Map::empty(),
                },
            ),
            model: Ghost(Map::empty()),
        }
    }

    /// Creates an empty map whose nodes will live in `store`.
    pub fn new_in<S: SlabView<Node<K, V>>>(store: &S) -> (map: Self)
        ensures
            map@ == Map::<K, V>::empty(),
            map.nodes() == Set::<usize>::empty(),
            map.counted(),
            forall|cells: Cells<K, V>| map.inv(cells),
    {
        Self::new()
    }

    /// The number of entries.
    pub fn len(&self) -> (len: usize)
        ensures
            self.counted() ==> len == self@.dom().len(),
    {
        self.len
    }

    /// Whether the map has no entries.
    pub fn is_empty(&self) -> (r: bool)
        ensures
            self.counted() ==> (r <==> self@.dom().len() == 0),
    {
        self.len == 0
    }

    /// The index of the root node; `None` for an empty map.
    pub fn root_id(&self) -> (root: Option<usize>)
        ensures
            root == self.root(),
    {
        self.root
    }

    /// Searches for `key` from the node `id` downwards.
    pub fn address_in<S: SlabView<Node<K, V>>>(&self, store: &S, id: usize, key: &K) -> (r: Result<
        Address,
        Address,
    >)
        requires
            self.wf(store),
            self.nodes().contains(id),
            self.key_fits(id, *key),
        ensures
            match r {
                Ok(addr) => self.is_item_address(store.cells(), addr) && self.item_of(
                    store.cells(),
                    addr,
                ).key == *key && self@.contains_pair(*key, self.item_of(store.cells(), addr).value),
                Err(addr) => !self@.dom().contains(*key) && self.is_gap_for(
                    store.cells(),
                    addr,
                    *key,
                ) && self.in_leaf(store.cells(), addr),
            },
    {
        let ghost cells = store.cells();
        let ghost g = self.shape@;
        let ghost root = self.root.unwrap();
        let mut id = id;
        loop
            invariant
                self.wf(store),
                cells == store.cells(),
                g == self.shape@,
                self.root == Some(root),
                g.nodes.contains(id),
                in_range(g, id, *key),
            decreases g.level[id],
        {
            assert(node_ok(cells, root, g, id));
            let node = store.get(id).unwrap();
            match node.offset_of(key) {
                Ok(offset) => {
                    let addr = Address::new(id, Offset::new(offset));
                    proof {
                        let item = item_at(cells, id, offset as int);
                        assert(self.model@.contains_pair(item.key, item.value));
                    }
                    return Ok(addr);
                },
                Err((offset, None)) => {
                    proof {
                        lemma_order_laws::<K>();
                        assert forall|i: int| 0 <= i < cells[id]@.items.len() implies (
                        #[trigger] cells[id]@.items[i]).key != *key by {
                            if i < offset {
                                assert(key_lt(cells[id]@.items[i].key, *key));
                            } else {
                                assert(key_lt(*key, cells[id]@.items[i].key));
                            }
                        }
                        lemma_absent(cells, root, g, None, None, self.model@, id, *key);
                    }
                    return Err(Address::new(id, Offset::new(offset)));
                },
                Err((offset, Some(child))) => {
                    proof {
                        assert(child_ok(cells, g, id, offset as int));
                        if offset > 0 {
                            assert(key_lt(cells[id]@.items[offset - 1].key, *key));
                        }
                        if offset < cells[id]@.items.len() {
                            assert(key_lt(*key, cells[id]@.items[offset as int].key));
                        }
                    }
                    id = child;
                },
            }
        }
    }

    /// `k` lies inside the interval of the node `id`.
    pub open(crate) spec fn key_fits(&self, id: usize, k: K) -> bool {
        in_range(self.shape@, id, k)
    }

    /// Every key lies inside the interval of the root.
    pub proof fn lemma_root_fits(&self, cells: Cells<K, V>, k: K)
        requires
            self.inv(cells),
            self.root().is_some(),
        ensures
            self.nodes().contains(self.root().unwrap()),
            self.key_fits(self.root().unwrap(), k),
    {
        assert(node_ok(cells, self.root.unwrap(), self.shape@, self.root.unwrap()));
    }

    /// Searches for `key`. `Ok` with the address of the item that has the
    /// key; otherwise `Err` with the place in a leaf at which the key would
    /// stand, which is nowhere if the map is empty.
    pub fn address_of<S: SlabView<Node<K, V>>>(&self, store: &S, key: &K) -> (r: Result<
        Address,
        Address,
    >)
        requires
            self.wf(store),
        ensures
            r.is_ok() <==> self@.dom().contains(*key),
            match r {
                Ok(addr) => self.is_item_address(store.cells(), addr) && self.item_of(
                    store.cells(),
                    addr,
                ).key == *key && self.item_of(store.cells(), addr).value == self@[*key],
                Err(addr) => if self.root().is_none() {
                    addr.id == usize::MAX && addr.offset.as_int() == 0
                } else {
                    self.is_gap_for(store.cells(), addr, *key) && self.in_leaf(
                        store.cells(),
                        addr,
                    )
                },
            },
    {
        match self.root {
            Some(id) => {
                proof {
                    self.lemma_root_fits(store.cells(), *key);
                }
                self.address_in(store, id, key)
            },
            None => Err(Address::nowhere()),
        }
    }

    /// The value bound to `key`, if there is one.
    pub fn get<'a, S: SlabView<Node<K, V>>>(&self, store: &'a S, key: &K) -> (value: Option<&'a V>)
        where
            K: 'a,
        requires
            self.wf(store),
        ensures
            value == (if self@.dom().contains(*key) {
                Some(&self@[*key])
            } else {
                None::<&V>
            }),
    {
        match self.address_of(store, key) {
            Ok(addr) => {
                let node = store.get(addr.id).unwrap();
                let item = node.item(addr.offset.unwrap()).unwrap();
                Some(&item.value)
            },
            Err(_) => None,
        }
    }

    /// The value bound to `key`, if there is one, searching for the key from
    /// the node `id` downwards, in whose interval the key lies.
    pub fn get_in<'a, S: SlabView<Node<K, V>>>(&self, store: &'a S, key: &K, id: usize) -> (value: Option<
        &'a V,
    >)
        where
            K: 'a,
        requires
            self.wf(store),
            self.nodes().contains(id),
            self.key_fits(id, *key),
        ensures
            value == (if self@.dom().contains(*key) {
                Some(&self@[*key])
            } else {
                None::<&V>
            }),
    {
        match self.address_in(store, id, key) {
            Ok(addr) => {
                let node = store.get(addr.id).unwrap();
                let item = node.item(addr.offset.unwrap()).unwrap();
                Some(&item.value)
            },
            Err(_) => None,
        }
    }

    /// The entry with the key `key`, if there is one.
    pub fn get_key_value<'a, S: SlabView<Node<K, V>>>(&self, store: &'a S, key: &K) -> (entry: Option<
        (&'a K, &'a V),
    >)
        where
            K: 'a,
        requires
            self.wf(store),
        ensures
            entry == (if self@.dom().contains(*key) {
                Some((key, &self@[*key]))
            } else {
                None::<(&K, &V)>
            }),
    {
        match self.address_of(store, key) {
            Ok(addr) => {
                let node = store.get(addr.id).unwrap();
                let item = node.item(addr.offset.unwrap()).unwrap();
                Some((&item.key, &item.value))
            },
            Err(_) => None,
        }
    }

    /// Whether the map has an entry with the key `key`.
    pub fn contains_key<S: SlabView<Node<K, V>>>(&self, store: &S, key: &K) -> (r: bool)
        requires
            self.wf(store),
        ensures
            r <==> self@.dom().contains(*key),
    {
        self.address_of(store, key).is_ok()
    }
}

} // verus!
