//! The nodes of a B-tree: fixed fan-out blocks of items and child indices, and
//! the primitive operations that splice them.

use vstd::prelude::*;
use crate::order::{compare, key_lt, lemma_order_laws, total_order, Relation};

verus! {

/// Knuth order of the trees: a node holds at most `M - 1` items between two
/// operations. At least 4.
pub const M: usize = 8;

/// The least number of items of a node that is not the root.
pub const MIN_ITEMS: usize = 3;

/// A key and the value bound to it.
pub struct Item<K, V> {
    pub key: K,
    pub value: V,
}

impl<K, V> Item<K, V> {
    /// Binds `value` to `key`.
    pub fn new(key: K, value: V) -> (item: Self)
        ensures
            item == (Item { key, value }),
    {
        Item { key, value }
    }

    /// The key.
    pub fn key(&self) -> (key: &K)
        ensures
            *key == self.key,
    {
        &self.key
    }

    /// The value.
    pub fn value(&self) -> (value: &V)
        ensures
            *value == self.value,
    {
        &self.value
    }

    /// The key and the value.
    pub fn as_pair(&self) -> (pair: (&K, &V))
        ensures
            *pair.0 == self.key,
            *pair.1 == self.value,
    {
        (&self.key, &self.value)
    }

    /// Takes the item apart.
    pub fn into_pair(self) -> (pair: (K, V))
        ensures
            pair == (self.key, self.value),
    {
        (self.key, self.value)
    }

    /// Takes the value, dropping the key.
    pub fn into_value(self) -> (value: V)
        ensures
            value == self.value,
    {
        self.value
    }

    /// Binds another value to the key and returns the old one.
    pub fn set_value(&mut self, value: V) -> (previous: V)
        ensures
            previous == old(self).value,
            *final(self) == (Item { key: old(self).key, value }),
    {
        let mut value = value;
        core::mem::swap(&mut self.value, &mut value);
        value
    }

    /// Replaces key and value and returns the old ones.
    pub fn set(&mut self, key: K, value: V) -> (previous: (K, V))
        ensures
            previous == (old(self).key, old(self).value),
            *final(self) == (Item { key, value }),
    {
        let mut key = key;
        let mut value = value;
        core::mem::swap(&mut self.key, &mut key);
        core::mem::swap(&mut self.value, &mut value);
        (key, value)
    }
}

/// The keys of `items` are strictly increasing.
pub open spec fn sorted<K: Ord, V>(items: Seq<Item<K, V>>) -> bool {
    forall|i: int, j: int| 0 <= i < j < items.len() ==> key_lt(#[trigger] items[i].key, #[trigger] items[j].key)
}

/// Whether a node has the right number of items.
#[derive(Clone, Copy, PartialEq, Eq, Structural, Debug)]
pub enum Balance {
    /// Between the least and the greatest number.
    Balanced,
    /// `M` items: one too many.
    Overflow,
    /// Too few for a node that is not the root; `true` if there is none at all.
    Underflow(bool),
}

/// A sibling cannot give an item away without falling under the least number.
#[derive(Clone, Copy, PartialEq, Eq, Structural, Debug)]
pub struct WouldUnderflow;

/// An item of an internal node together with the child to its right.
pub struct Branch<K, V> {
    pub item: Item<K, V>,
    pub child: usize,
}

/// A node without children.
pub struct Leaf<K, V> {
    parent: Option<usize>,
    items: Vec<Item<K, V>>,
}

/// A node with one child more than it has items.
pub struct Internal<K, V> {
    parent: Option<usize>,
    first_child: usize,
    other_children: Vec<Branch<K, V>>,
}

/// A node of a B-tree.
pub enum Node<K, V> {
    Internal(Internal<K, V>),
    Leaf(Leaf<K, V>),
}

/// What a node holds: the parent's index, the items in order, and the
/// children's indices in order. A leaf has no children, an internal node one
/// more than it has items.
pub struct NodeView<K, V> {
    pub parent: Option<usize>,
    pub items: Seq<Item<K, V>>,
    pub children: Seq<usize>,
}

impl<K, V> NodeView<K, V> {
    /// Whether the node has no children.
    pub open spec fn is_leaf(self) -> bool {
        self.children.len() == 0
    }

    /// A leaf has no children, an internal node one more than it has items.
    pub open spec fn shaped(self) -> bool {
        self.children.len() == 0 || self.children.len() == self.items.len() + 1
    }

    /// The node is in order by itself: it names `parent` as its parent, the
    /// number of its items is within bounds (`lo` and `hi` are both missing
    /// for a root only), its keys are strictly increasing and lie strictly
    /// between `lo` and `hi`.
    pub open spec fn valid(self, parent: Option<usize>, lo: Option<K>, hi: Option<K>) -> bool
        where
            K: Ord,
    {
        &&& self.parent == parent
        &&& self.items.len() < M
        &&& if lo.is_some() || hi.is_some() {
            self.items.len() >= MIN_ITEMS
        } else {
            self.items.len() >= 1
        }
        &&& sorted(self.items)
        &&& forall|a: int|
            0 <= a < self.items.len() ==> crate::order::between(lo, (#[trigger] self.items[a]).key, hi)
    }

    /// The balance of a node with this many items.
    pub open spec fn balance(self) -> Balance {
        if self.items.len() >= M {
            Balance::Overflow
        } else if self.items.len() < MIN_ITEMS {
            Balance::Underflow(self.items.len() == 0)
        } else {
            Balance::Balanced
        }
    }
}

/// The items of the branches, in order.
pub open spec fn branch_items<K, V>(branches: Seq<Branch<K, V>>) -> Seq<Item<K, V>> {
    Seq::new(branches.len(), |i: int| branches[i].item)
}

/// The first child followed by the children of the branches.
pub open spec fn branch_children<K, V>(first: usize, branches: Seq<Branch<K, V>>) -> Seq<usize> {
    Seq::new(
        branches.len() + 1,
        |i: int|
            if i == 0 {
                first
            } else {
                branches[i - 1].child
            },
    )
}

impl<K, V> View for Leaf<K, V> {
    type V = NodeView<K, V>;

    closed spec fn view(&self) -> NodeView<K, V> {
        NodeView { parent: self.parent, items: self.items@, children: Seq::empty() }
    }
}

impl<K, V> View for Internal<K, V> {
    type V = NodeView<K, V>;

    closed spec fn view(&self) -> NodeView<K, V> {
        NodeView {
            parent: self.parent,
            items: branch_items(self.other_children@),
            children: branch_children(self.first_child, self.other_children@),
        }
    }
}

impl<K, V> View for Node<K, V> {
    type V = NodeView<K, V>;

    open spec fn view(&self) -> NodeView<K, V> {
        match self {
            Node::Internal(node) => node@,
            Node::Leaf(leaf) => leaf@,
        }
    }
}

impl<K, V> Leaf<K, V> {
    /// A leaf that holds one item.
    pub fn new(parent: Option<usize>, item: Item<K, V>) -> (leaf: Self)
        ensures
            leaf@ == (NodeView { parent, items: seq![item], children: Seq::<usize>::empty() }),
    {
        let mut items = Vec::new();
        items.push(item);
        assert(items@ =~= seq![item]);
        Leaf { parent, items }
    }

    /// The number of items.
    pub fn item_count(&self) -> (n: usize)
        ensures
            n == self@.items.len(),
            self@.children.len() == 0,
    {
        self.items.len()
    }
}

impl<K, V> Internal<K, V> {
    /// An internal node that holds one item between two children.
    pub fn binary(parent: Option<usize>, left_id: usize, median: Item<K, V>, right_id: usize) -> (node:
        Self)
        ensures
            node@ == (NodeView { parent, items: seq![median], children: seq![left_id, right_id] }),
    {
        let mut other_children = Vec::new();
        other_children.push(Branch { item: median, child: right_id });
        let node = Internal { parent, first_child: left_id, other_children };
        assert(node@.items =~= seq![median]);
        assert(node@.children =~= seq![left_id, right_id]);
        node
    }

    /// An internal node that holds no item above one child: what a root is
    /// while the tree grows or shrinks by one level.
    pub fn stem(parent: Option<usize>, child: usize) -> (node: Self)
        ensures
            node@ == (NodeView {
                parent,
                items: Seq::<Item<K, V>>::empty(),
                children: seq![child],
            }),
    {
        let node = Internal { parent, first_child: child, other_children: Vec::new() };
        assert(node@.items =~= Seq::<Item<K, V>>::empty());
        assert(node@.children =~= seq![child]);
        node
    }

    /// The number of items.
    pub fn item_count(&self) -> (n: usize)
        ensures
            n == self@.items.len(),
            self@.children.len() == n + 1,
    {
        self.other_children.len()
    }

    /// The number of children.
    pub fn child_count(&self) -> (n: usize)
        requires
            self@.items.len() <= M,
        ensures
            n == self@.children.len(),
            n == self@.items.len() + 1,
    {
        self.other_children.len() + 1
    }
}


impl<K, V> Node<K, V> {
    /// A leaf that holds one item.
    pub fn leaf(parent: Option<usize>, item: Item<K, V>) -> (node: Self)
        ensures
            node@ == (NodeView { parent, items: seq![item], children: Seq::<usize>::empty() }),
    {
        Node::Leaf(Leaf::new(parent, item))
    }

    /// An internal node that holds one item between two children.
    pub fn binary(parent: Option<usize>, left_id: usize, median: Item<K, V>, right_id: usize) -> (node:
        Self)
        ensures
            node@ == (NodeView { parent, items: seq![median], children: seq![left_id, right_id] }),
    {
        Node::Internal(Internal::binary(parent, left_id, median, right_id))
    }

    /// An internal node that holds no item above one child: what a root is
    /// while the tree grows or shrinks by one level.
    pub fn stem(parent: Option<usize>, child: usize) -> (node: Self)
        ensures
            node@ == (NodeView {
                parent,
                items: Seq::<Item<K, V>>::empty(),
                children: seq![child],
            }),
    {
        Node::Internal(Internal::stem(parent, child))
    }

    /// Every node is shaped: a leaf has no children, an internal node one
    /// more than it has items.
    pub proof fn lemma_shaped(&self)
        ensures
            self@.shaped(),
            self is Leaf <==> self@.is_leaf(),
    {
    }

    /// The parent's index; `None` for a root.
    pub fn parent(&self) -> (parent: Option<usize>)
        ensures
            parent == self@.parent,
    {
        match self {
            Node::Internal(node) => node.parent,
            Node::Leaf(leaf) => leaf.parent,
        }
    }

    /// Records another parent.
    pub fn set_parent(&mut self, parent: Option<usize>)
        ensures
            final(self)@ == (NodeView { parent, ..old(self)@ }),
    {
        match self {
            Node::Internal(node) => {
                node.parent = parent;
            },
            Node::Leaf(leaf) => {
                leaf.parent = parent;
            },
        }
    }

    /// Whether the node has no children.
    pub fn is_leaf(&self) -> (r: bool)
        ensures
            r == self@.is_leaf(),
    {
        match self {
            Node::Internal(_) => false,
            Node::Leaf(_) => true,
        }
    }

    /// The number of items.
    pub fn item_count(&self) -> (n: usize)
        ensures
            n == self@.items.len(),
    {
        match self {
            Node::Internal(node) => node.item_count(),
            Node::Leaf(leaf) => leaf.item_count(),
        }
    }

    /// The number of children.
    pub fn child_count(&self) -> (n: usize)
        requires
            self@.items.len() <= M,
        ensures
            n == self@.children.len(),
    {
        match self {
            Node::Internal(node) => node.child_count(),
            Node::Leaf(_) => 0,
        }
    }

    /// The child at `index`, if there is one.
    pub fn child_id_opt(&self, index: usize) -> (child: Option<usize>)
        ensures
            child == (if index < self@.children.len() {
                Some(self@.children[index as int])
            } else {
                None::<usize>
            }),
    {
        match self {
            Node::Internal(node) => {
                if index == 0 {
                    Some(node.first_child)
                } else if index - 1 < node.other_children.len() {
                    Some(node.other_children[index - 1].child)
                } else {
                    None
                }
            },
            Node::Leaf(_) => None,
        }
    }

    /// The child at `index`.
    pub fn child_id(&self, index: usize) -> (child: usize)
        requires
            index < self@.children.len(),
        ensures
            child == self@.children[index as int],
    {
        match self {
            Node::Internal(node) => {
                if index == 0 {
                    node.first_child
                } else {
                    node.other_children[index - 1].child
                }
            },
            Node::Leaf(_) => {
                proof {
                    assert(false);
                }
                0
            },
        }
    }

    /// The least position at which `id` stands among the children.
    pub fn child_index(&self, id: usize) -> (index: Option<usize>)
        ensures
            match index {
                Some(i) => i < self@.children.len() && self@.children[i as int] == id && forall|
                    j: int,
                | 0 <= j < i ==> self@.children[j] != id,
                None => forall|j: int| 0 <= j < self@.children.len() ==> self@.children[j] != id,
            },
    {
        match self {
            Node::Internal(node) => {
                if node.first_child == id {
                    return Some(0);
                }
                let mut i: usize = 0;
                while i < node.other_children.len()
                    invariant
                        i <= node.other_children.len(),
                        *self == Node::Internal(*node),
                        forall|j: int| 0 <= j <= i ==> self@.children[j] != id,
                    decreases node.other_children.len() - i,
                {
                    if node.other_children[i].child == id {
                        return Some(i + 1);
                    }
                    i = i + 1;
                }
                None
            },
            Node::Leaf(_) => None,
        }
    }

    /// The balance of the node.
    pub fn balance(&self) -> (balance: Balance)
        ensures
            balance == self@.balance(),
    {
        let count = self.item_count();
        if count >= M {
            Balance::Overflow
        } else if count < MIN_ITEMS {
            Balance::Underflow(count == 0)
        } else {
            Balance::Balanced
        }
    }

    /// Whether the node holds one item too many.
    pub fn is_overflowing(&self) -> (r: bool)
        ensures
            r <==> self@.items.len() >= M,
    {
        self.item_count() >= M
    }

    /// Whether the node holds too few items for a node that is not the root.
    pub fn is_underflowing(&self) -> (r: bool)
        ensures
            r <==> self@.items.len() < MIN_ITEMS,
    {
        self.item_count() < MIN_ITEMS
    }

    /// The item at `offset`, if there is one.
    pub fn item(&self, offset: usize) -> (item: Option<&Item<K, V>>)
        ensures
            item == (if offset < self@.items.len() {
                Some(&self@.items[offset as int])
            } else {
                None::<&Item<K, V>>
            }),
    {
        match self {
            Node::Internal(node) => {
                if offset < node.other_children.len() {
                    Some(&node.other_children[offset].item)
                } else {
                    None
                }
            },
            Node::Leaf(leaf) => {
                if offset < leaf.items.len() {
                    Some(&leaf.items[offset])
                } else {
                    None
                }
            },
        }
    }

    /// The first and the last item, if the node has any.
    pub fn first_item(&self) -> (item: Option<&Item<K, V>>)
        ensures
            item == (if self@.items.len() > 0 {
                Some(&self@.items[0])
            } else {
                None::<&Item<K, V>>
            }),
    {
        self.item(0)
    }

    /// The last item, if the node has any.
    pub fn last_item(&self) -> (item: Option<&Item<K, V>>)
        ensures
            item == (if self@.items.len() > 0 {
                Some(&self@.items[self@.items.len() - 1])
            } else {
                None::<&Item<K, V>>
            }),
    {
        let count = self.item_count();
        if count == 0 {
            None
        } else {
            self.item(count - 1)
        }
    }

    /// Puts `item` in the place of the item at `offset` and returns that one.
    pub fn replace(&mut self, offset: usize, item: Item<K, V>) -> (previous: Item<K, V>)
        requires
            offset < old(self)@.items.len(),
        ensures
            previous == old(self)@.items[offset as int],
            final(self)@ == (NodeView {
                items: old(self)@.items.update(offset as int, item),
                ..old(self)@
            }),
    {
        let mut item = item;
        match self {
            Node::Internal(node) => {
                let ghost before = node.other_children@;
                core::mem::swap(&mut node.other_children[offset].item, &mut item);
                proof {
                    let after = node.other_children@;
                    assert(after[offset as int].child == before[offset as int].child);
                    assert(branch_items(after) =~= branch_items(before).update(offset as int, after[offset as int].item));
                    assert(branch_children(node.first_child, after) =~= branch_children(node.first_child, before));
                }
            },
            Node::Leaf(leaf) => {
                core::mem::swap(&mut leaf.items[offset], &mut item);
            },
        }
        item
    }

    /// Binds `value` to the key at `offset` and returns the value that was
    /// bound to it.
    pub fn replace_value(&mut self, offset: usize, value: V) -> (previous: V)
        requires
            offset < old(self)@.items.len(),
        ensures
            previous == old(self)@.items[offset as int].value,
            final(self)@ == (NodeView {
                items: old(self)@.items.update(
                    offset as int,
                    Item { key: old(self)@.items[offset as int].key, value },
                ),
                ..old(self)@
            }),
    {
        let mut value = value;
        match self {
            Node::Internal(node) => {
                let ghost before = node.other_children@;
                core::mem::swap(&mut node.other_children[offset].item.value, &mut value);
                proof {
                    let after = node.other_children@;
                    assert(after[offset as int].child == before[offset as int].child);
                    assert(branch_items(after) =~= branch_items(before).update(offset as int, after[offset as int].item));
                    assert(branch_children(node.first_child, after) =~= branch_children(node.first_child, before));
                }
            },
            Node::Leaf(leaf) => {
                core::mem::swap(&mut leaf.items[offset].value, &mut value);
            },
        }
        value
    }

    /// The value bound to the key at `offset`, for writing. What the caller
    /// leaves in it is bound to the key afterwards.
    pub fn value_mut(&mut self, offset: usize) -> (value: &mut V)
        requires
            offset < old(self)@.items.len(),
        ensures
            *value == old(self)@.items[offset as int].value,
            final(self)@ == (NodeView {
                items: old(self)@.items.update(
                    offset as int,
                    Item { key: old(self)@.items[offset as int].key, value: *final(value) },
                ),
                ..old(self)@
            }),
    {
        match self {
            Node::Internal(node) => {
                let ghost before = node.other_children@;
                proof {
                    assert forall|v: V| {
                        let after = #[trigger] before.update(
                            offset as int,
                            Branch {
                                item: Item { key: before[offset as int].item.key, value: v },
                                child: before[offset as int].child,
                            },
                        );
                        &&& branch_items(after) == branch_items(before).update(
                            offset as int,
                            Item { key: before[offset as int].item.key, value: v },
                        )
                        &&& branch_children(node.first_child, after) == branch_children(
                            node.first_child,
                            before,
                        )
                    } by {
                        let after = before.update(
                            offset as int,
                            Branch {
                                item: Item { key: before[offset as int].item.key, value: v },
                                child: before[offset as int].child,
                            },
                        );
                        assert(branch_items(after) =~= branch_items(before).update(
                            offset as int,
                            Item { key: before[offset as int].item.key, value: v },
                        ));
                        assert(branch_children(node.first_child, after) =~= branch_children(
                            node.first_child,
                            before,
                        ));
                    }
                }
                &mut node.other_children[offset].item.value
            },
            Node::Leaf(leaf) => &mut leaf.items[offset].value,
        }
    }

    /// The key at `offset`, and the value bound to it for writing. What the
    /// caller leaves in the value is bound to the key afterwards.
    pub fn key_value_mut(&mut self, offset: usize) -> (entry: (&K, &mut V))
        requires
            offset < old(self)@.items.len(),
        ensures
            *entry.0 == old(self)@.items[offset as int].key,
            *entry.1 == old(self)@.items[offset as int].value,
            final(self)@ == (NodeView {
                items: old(self)@.items.update(
                    offset as int,
                    Item { key: old(self)@.items[offset as int].key, value: *final(entry.1) },
                ),
                ..old(self)@
            }),
    {
        match self {
            Node::Internal(node) => {
                let ghost before = node.other_children@;
                proof {
                    assert forall|v: V| {
                        let after = #[trigger] before.update(
                            offset as int,
                            Branch {
                                item: Item { key: before[offset as int].item.key, value: v },
                                child: before[offset as int].child,
                            },
                        );
                        &&& branch_items(after) == branch_items(before).update(
                            offset as int,
                            Item { key: before[offset as int].item.key, value: v },
                        )
                        &&& branch_children(node.first_child, after) == branch_children(
                            node.first_child,
                            before,
                        )
                    } by {
                        let after = before.update(
                            offset as int,
                            Branch {
                                item: Item { key: before[offset as int].item.key, value: v },
                                child: before[offset as int].child,
                            },
                        );
                        assert(branch_items(after) =~= branch_items(before).update(
                            offset as int,
                            Item { key: before[offset as int].item.key, value: v },
                        ));
                        assert(branch_children(node.first_child, after) =~= branch_children(
                            node.first_child,
                            before,
                        ));
                    }
                }
                let item = &mut node.other_children[offset].item;
                (&item.key, &mut item.value)
            },
            Node::Leaf(leaf) => {
                let item = &mut leaf.items[offset];
                (&item.key, &mut item.value)
            },
        }
    }

    /// Puts `item` at `offset`, moving the items from there on one place to the
    /// right. In an internal node `opt_right_id` becomes the child to the right
    /// of the new item.
    pub fn insert(&mut self, offset: usize, item: Item<K, V>, opt_right_id: Option<usize>)
        requires
            offset <= old(self)@.items.len(),
            !old(self)@.is_leaf() ==> opt_right_id.is_some(),
        ensures
            final(self)@.parent == old(self)@.parent,
            final(self)@.items == old(self)@.items.insert(offset as int, item),
            old(self)@.is_leaf() ==> final(self)@.children == old(self)@.children,
            !old(self)@.is_leaf() ==> final(self)@.children == old(self)@.children.insert(
                offset + 1,
                opt_right_id.unwrap(),
            ),
    {
        match self {
            Node::Internal(node) => {
                let ghost before = node.other_children@;
                let right_id = opt_right_id.unwrap();
                node.other_children.insert(offset, Branch { item, child: right_id });
                proof {
                    let after = node.other_children@;
                    assert(branch_items(after) =~= branch_items(before).insert(offset as int, item));
                    assert(branch_children(node.first_child, after) =~= branch_children(
                        node.first_child,
                        before,
                    ).insert(offset + 1, right_id));
                }
            },
            Node::Leaf(leaf) => {
                leaf.items.insert(offset, item);
            },
        }
    }

    /// Splits a node that holds `M` items: the node keeps the items before the
    /// median, the median leaves the node, and the items after it go to a new
    /// right sibling, which has the same parent. Returns the median's former
    /// offset, the median and the sibling. The children of the sibling still
    /// name the old node as their parent.
    pub fn split(&mut self) -> (r: (usize, Item<K, V>, Node<K, V>))
        requires
            old(self)@.items.len() == M,
        ensures
            r.0 == (M - 1) / 2,
            r.1 == old(self)@.items[r.0 as int],
            final(self)@.parent == old(self)@.parent,
            final(self)@.items == old(self)@.items.subrange(0, r.0 as int),
            r.2@.parent == old(self)@.parent,
            r.2@.items == old(self)@.items.subrange(r.0 + 1, M as int),
            old(self)@.is_leaf() ==> final(self)@.is_leaf() && r.2@.is_leaf(),
            !old(self)@.is_leaf() ==> final(self)@.children == old(self)@.children.subrange(
                0,
                r.0 + 1,
            ) && r.2@.children == old(self)@.children.subrange(r.0 + 1, M + 1),
    {
        let median_i: usize = (M - 1) / 2;
        match self {
            Node::Internal(node) => {
                let ghost before = node.other_children@;
                let right_branches = node.other_children.split_off(median_i + 1);
                let median = node.other_children.pop().unwrap();
                let right = Internal {
                    parent: node.parent,
                    first_child: median.child,
                    other_children: right_branches,
                };
                proof {
                    let after = node.other_children@;
                    assert(after =~= before.subrange(0, median_i as int));
                    assert(right_branches@ =~= before.subrange(median_i + 1, M as int));
                    assert(median == before[median_i as int]);
                    assert(branch_items(after) =~= branch_items(before).subrange(0, median_i as int));
                    assert(branch_items(right_branches@) =~= branch_items(before).subrange(
                        median_i + 1,
                        M as int,
                    ));
                    assert(branch_children(node.first_child, after) =~= branch_children(
                        node.first_child,
                        before,
                    ).subrange(0, median_i + 1));
                    assert(branch_children(median.child, right_branches@) =~= branch_children(
                        node.first_child,
                        before,
                    ).subrange(median_i + 1, M + 1));
                }
                (median_i, median.item, Node::Internal(right))
            },
            Node::Leaf(leaf) => {
                let ghost before = leaf.items@;
                let right_items = leaf.items.split_off(median_i + 1);
                let median = leaf.items.pop().unwrap();
                let right = Leaf { parent: leaf.parent, items: right_items };
                proof {
                    assert(leaf.items@ =~= before.subrange(0, median_i as int));
                    assert(right_items@ =~= before.subrange(median_i + 1, M as int));
                }
                (median_i, median, Node::Leaf(right))
            },
        }
    }

    /// Takes out the item between the children at `left_index` and
    /// `right_index`, and with it the right one of the two children. Returns the
    /// item's former offset, the two children, the item, and the node's balance
    /// afterwards.
    pub fn merge(&mut self, left_index: usize, right_index: usize) -> (r: (
        usize,
        usize,
        usize,
        Item<K, V>,
        Balance,
    ))
        requires
            right_index == left_index + 1,
            right_index < old(self)@.children.len(),
            old(self)@.items.len() <= M,
        ensures
            r.0 == left_index,
            r.1 == old(self)@.children[left_index as int],
            r.2 == old(self)@.children[right_index as int],
            r.3 == old(self)@.items[left_index as int],
            r.4 == final(self)@.balance(),
            final(self)@ == (NodeView {
                parent: old(self)@.parent,
                items: old(self)@.items.remove(left_index as int),
                children: old(self)@.children.remove(right_index as int),
            }),
    {
        let left_id = self.child_id(left_index);
        let right_id = self.child_id(right_index);
        match self {
            Node::Internal(node) => {
                let ghost before = node.other_children@;
                let branch = node.other_children.remove(left_index);
                proof {
                    let after = node.other_children@;
                    assert(branch_items(after) =~= branch_items(before).remove(left_index as int));
                    assert(branch_children(node.first_child, after) =~= branch_children(
                        node.first_child,
                        before,
                    ).remove(right_index as int));
                }
                let balance = self.balance();
                (left_index, left_id, right_id, branch.item, balance)
            },
            Node::Leaf(leaf) => {
                proof {
                    assert(false);
                }
                let item = leaf.items.remove(left_index);
                (left_index, left_id, right_id, item, Balance::Balanced)
            },
        }
    }

    /// Takes `separator` and then all that `other` holds onto the end of this
    /// node. Returns the offset at which the separator stands afterwards.
    pub fn append(&mut self, separator: Item<K, V>, other: Node<K, V>) -> (offset: usize)
        requires
            old(self)@.is_leaf() == other@.is_leaf(),
        ensures
            offset == old(self)@.items.len(),
            final(self)@ == (NodeView {
                parent: old(self)@.parent,
                items: old(self)@.items.push(separator) + other@.items,
                children: old(self)@.children + other@.children,
            }),
    {
        let offset = self.item_count();
        match self {
            Node::Internal(node) => {
                match other {
                    Node::Internal(other_node) => {
                        let ghost before = node.other_children@;
                        let ghost added = other_node.other_children@;
                        let mut other_branches = other_node.other_children;
                        node.other_children.push(
                            Branch { item: separator, child: other_node.first_child },
                        );
                        node.other_children.append(&mut other_branches);
                        proof {
                            let after = node.other_children@;
                            assert(after =~= before.push(
                                Branch { item: separator, child: other_node.first_child },
                            ) + added);
                            assert(branch_items(after) =~= branch_items(before).push(separator)
                                + branch_items(added));
                            assert(branch_children(node.first_child, after) =~= branch_children(
                                node.first_child,
                                before,
                            ) + branch_children(other_node.first_child, added));
                        }
                    },
                    Node::Leaf(_) => {
                        proof {
                            assert(false);
                        }
                    },
                }
            },
            Node::Leaf(leaf) => {
                match other {
                    Node::Leaf(other_leaf) => {
                        let mut other_items = other_leaf.items;
                        leaf.items.push(separator);
                        leaf.items.append(&mut other_items);
                        proof {
                            assert(final(self)@.children =~= old(self)@.children + other@.children);
                        }
                    },
                    Node::Internal(_) => {
                        proof {
                            assert(false);
                        }
                    },
                }
            },
        }
        offset
    }

    /// Puts `item` before all items; in an internal node `opt_child_id` becomes
    /// the first child.
    pub fn push_left(&mut self, item: Item<K, V>, opt_child_id: Option<usize>)
        requires
            old(self)@.is_leaf() <==> opt_child_id.is_none(),
        ensures
            final(self)@.parent == old(self)@.parent,
            final(self)@.items == seq![item] + old(self)@.items,
            final(self)@.children == (match opt_child_id {
                Some(child) => seq![child] + old(self)@.children,
                None => old(self)@.children,
            }),
    {
        match self {
            Node::Internal(node) => {
                let ghost before = node.other_children@;
                let ghost first = node.first_child;
                let child_id = opt_child_id.unwrap();
                node.other_children.insert(0, Branch { item, child: node.first_child });
                node.first_child = child_id;
                proof {
                    let after = node.other_children@;
                    assert(branch_items(after) =~= seq![item] + branch_items(before));
                    assert(branch_children(child_id, after) =~= seq![child_id] + branch_children(
                        first,
                        before,
                    ));
                }
            },
            Node::Leaf(leaf) => {
                leaf.items.insert(0, item);
                proof {
                    assert(leaf.items@ =~= seq![item] + old(self)@.items);
                }
            },
        }
    }

    /// Takes out the first item and, from an internal node, the first child;
    /// fails, without a change, where fewer than the least number of items
    /// would stay.
    pub fn pop_left(&mut self) -> (r: Result<(Item<K, V>, Option<usize>), WouldUnderflow>)
        ensures
            r.is_ok() <==> old(self)@.items.len() > MIN_ITEMS,
            r.is_err() ==> *final(self) == *old(self),
            r.is_ok() ==> {
                &&& r.unwrap().0 == old(self)@.items[0]
                &&& r.unwrap().1 == (if old(self)@.is_leaf() {
                    None::<usize>
                } else {
                    Some(old(self)@.children[0])
                })
                &&& final(self)@.parent == old(self)@.parent
                &&& final(self)@.items == old(self)@.items.drop_first()
                &&& final(self)@.children == (if old(self)@.is_leaf() {
                    old(self)@.children
                } else {
                    old(self)@.children.drop_first()
                })
            },
    {
        if self.item_count() <= MIN_ITEMS {
            return Err(WouldUnderflow);
        }
        match self {
            Node::Internal(node) => {
                let ghost before = node.other_children@;
                let ghost first_before = node.first_child;
                let child_id = node.first_child;
                let first = node.other_children.remove(0);
                node.first_child = first.child;
                proof {
                    let after = node.other_children@;
                    assert(branch_items(after) =~= branch_items(before).drop_first());
                    assert(branch_children(first.child, after) =~= branch_children(
                        first_before,
                        before,
                    ).drop_first());
                }
                Ok((first.item, Some(child_id)))
            },
            Node::Leaf(leaf) => {
                let item = leaf.items.remove(0);
                proof {
                    assert(leaf.items@ =~= old(self)@.items.drop_first());
                }
                Ok((item, None))
            },
        }
    }

    /// Puts `item` after all items; in an internal node `opt_child_id` becomes
    /// the last child. Returns the offset of the item.
    pub fn push_right(&mut self, item: Item<K, V>, opt_child_id: Option<usize>) -> (offset: usize)
        requires
            old(self)@.is_leaf() <==> opt_child_id.is_none(),
        ensures
            offset == old(self)@.items.len(),
            final(self)@.parent == old(self)@.parent,
            final(self)@.items == old(self)@.items.push(item),
            final(self)@.children == (match opt_child_id {
                Some(child) => old(self)@.children.push(child),
                None => old(self)@.children,
            }),
    {
        let offset = self.item_count();
        match self {
            Node::Internal(node) => {
                let ghost before = node.other_children@;
                let child_id = opt_child_id.unwrap();
                node.other_children.push(Branch { item, child: child_id });
                proof {
                    let after = node.other_children@;
                    assert(branch_items(after) =~= branch_items(before).push(item));
                    assert(branch_children(node.first_child, after) =~= branch_children(
                        node.first_child,
                        before,
                    ).push(child_id));
                }
            },
            Node::Leaf(leaf) => {
                leaf.items.push(item);
            },
        }
        offset
    }

    /// Takes out the last item and, from an internal node, the last child;
    /// fails, without a change, where fewer than the least number of items
    /// would stay. Returns the item's former offset, the item and the child.
    pub fn pop_right(&mut self) -> (r: Result<(usize, Item<K, V>, Option<usize>), WouldUnderflow>)
        ensures
            r.is_ok() <==> old(self)@.items.len() > MIN_ITEMS,
            r.is_err() ==> *final(self) == *old(self),
            r.is_ok() ==> {
                &&& r.unwrap().0 == old(self)@.items.len() - 1
                &&& r.unwrap().1 == old(self)@.items.last()
                &&& r.unwrap().2 == (if old(self)@.is_leaf() {
                    None::<usize>
                } else {
                    Some(old(self)@.children.last())
                })
                &&& final(self)@.parent == old(self)@.parent
                &&& final(self)@.items == old(self)@.items.drop_last()
                &&& final(self)@.children == (if old(self)@.is_leaf() {
                    old(self)@.children
                } else {
                    old(self)@.children.drop_last()
                })
            },
    {
        let count = self.item_count();
        if count <= MIN_ITEMS {
            return Err(WouldUnderflow);
        }
        match self {
            Node::Internal(node) => {
                let ghost before = node.other_children@;
                let last = node.other_children.pop().unwrap();
                proof {
                    let after = node.other_children@;
                    assert(branch_items(after) =~= branch_items(before).drop_last());
                    assert(branch_children(node.first_child, after) =~= branch_children(
                        node.first_child,
                        before,
                    ).drop_last());
                }
                Ok((count - 1, last.item, Some(last.child)))
            },
            Node::Leaf(leaf) => {
                let item = leaf.items.pop().unwrap();
                Ok((count - 1, item, None))
            },
        }
    }

    /// Takes the item at `offset` out of a leaf. An internal node stays as it
    /// is, and the child to the left of the item is returned in place of the
    /// item. `None` where there is no item at `offset`.
    pub fn leaf_remove(&mut self, offset: usize) -> (r: Option<Result<Item<K, V>, usize>>)
        ensures
            r.is_some() <==> offset < old(self)@.items.len(),
            r.is_none() ==> *final(self) == *old(self),
            r.is_some() && old(self)@.is_leaf() ==> r.unwrap() == Ok::<Item<K, V>, usize>(
                old(self)@.items[offset as int],
            ) && final(self)@ == (NodeView {
                items: old(self)@.items.remove(offset as int),
                ..old(self)@
            }),
            r.is_some() && !old(self)@.is_leaf() ==> r.unwrap() == Err::<Item<K, V>, usize>(
                old(self)@.children[offset as int],
            ) && *final(self) == *old(self),
    {
        if offset >= self.item_count() {
            return None;
        }
        match self {
            Node::Internal(node) => {
                let left_child_id = if offset == 0 {
                    node.first_child
                } else {
                    node.other_children[offset - 1].child
                };
                Some(Err(left_child_id))
            },
            Node::Leaf(leaf) => {
                let item = leaf.items.remove(offset);
                Some(Ok(item))
            },
        }
    }

    /// Takes the last item out of a leaf. An internal node stays as it is, and
    /// its last child is returned in place of an item.
    pub fn remove_rightmost_leaf(&mut self) -> (r: Result<Item<K, V>, usize>)
        requires
            old(self)@.items.len() > 0,
        ensures
            old(self)@.is_leaf() ==> r == Ok::<Item<K, V>, usize>(old(self)@.items.last())
                && final(self)@ == (NodeView { items: old(self)@.items.drop_last(), ..old(self)@ }),
            !old(self)@.is_leaf() ==> r == Err::<Item<K, V>, usize>(old(self)@.children.last())
                && *final(self) == *old(self),
    {
        match self {
            Node::Internal(node) => {
                let count = node.other_children.len();
                Err(node.other_children[count - 1].child)
            },
            Node::Leaf(leaf) => {
                let item = leaf.items.pop().unwrap();
                Ok(item)
            },
        }
    }
}

/// Goes through the children of a node, in order.
pub enum Children<'a, K, V> {
    /// A leaf has no children.
    Leaf,
    /// The first child, as long as it is to come, the branches that hold the
    /// other children, and the number of branches that were passed.
    Internal(Option<usize>, &'a Vec<Branch<K, V>>, usize),
}

impl<'a, K, V> Children<'a, K, V> {
    /// The children still to come, in order.
    pub open spec fn remaining(&self) -> Seq<usize> {
        match self {
            Children::Leaf => Seq::empty(),
            Children::Internal(first, branches, passed) => {
                let rest = Seq::new(
                    (branches@.len() - *passed) as nat,
                    |i: int| branches@[*passed + i].child,
                );
                match first {
                    Some(child) => seq![*child] + rest,
                    None => rest,
                }
            },
        }
    }

    /// No more branches were passed than there are, and none while the
    /// first child is to come.
    pub open spec fn wf(&self) -> bool {
        match self {
            Children::Leaf => true,
            Children::Internal(first, branches, passed) => *passed <= branches@.len() && (
            first.is_some() ==> *passed == 0),
        }
    }

    /// The next child, if one is to come.
    pub fn next(&mut self) -> (child: Option<usize>)
        requires
            old(self).wf(),
        ensures
            final(self).wf(),
            child == (if old(self).remaining().len() > 0 {
                Some(old(self).remaining()[0])
            } else {
                None::<usize>
            }),
            final(self).remaining() == (if old(self).remaining().len() > 0 {
                old(self).remaining().drop_first()
            } else {
                old(self).remaining()
            }),
    {
        let ghost before = self.remaining();
        match self {
            Children::Leaf => None,
            Children::Internal(first, branches, passed) => {
                match first.take() {
                    Some(child) => {
                        proof {
                            assert(final(self).remaining() =~= before.drop_first());
                        }
                        Some(child)
                    },
                    None => {
                        if *passed < branches.len() {
                            let child = branches[*passed].child;
                            *passed = *passed + 1;
                            proof {
                                assert(final(self).remaining() =~= before.drop_first());
                            }
                            Some(child)
                        } else {
                            None
                        }
                    },
                }
            },
        }
    }
}

impl<K, V> Node<K, V> {
    /// An iterator over the children of the node, in order.
    pub fn children(&self) -> (children: Children<'_, K, V>)
        ensures
            children.wf(),
            children.remaining() == self@.children,
    {
        match self {
            Node::Leaf(_) => Children::Leaf,
            Node::Internal(node) => {
                let children = Children::Internal(Some(node.first_child), &node.other_children, 0);
                proof {
                    assert(children.remaining() =~= self@.children);
                }
                children
            },
        }
    }
}

impl<K: Ord, V> Node<K, V> {
    /// Finds `key` among the items, which are sorted. `Ok` with the offset of
    /// the item that has the key; otherwise `Err` with the offset at which the
    /// key would stand, and the child that may hold it if the node has
    /// children.
    pub fn offset_of(&self, key: &K) -> (r: Result<usize, (usize, Option<usize>)>)
        requires
            total_order::<K>(),
            sorted(self@.items),
            self@.shaped(),
        ensures
            match r {
                Ok(i) => i < self@.items.len() && self@.items[i as int].key == *key,
                Err((i, child)) => {
                    &&& i <= self@.items.len()
                    &&& forall|j: int| 0 <= j < i ==> key_lt(#[trigger] self@.items[j].key, *key)
                    &&& forall|j: int|
                        i <= j < self@.items.len() ==> key_lt(*key, #[trigger] self@.items[j].key)
                    &&& child == (if self@.is_leaf() {
                        None::<usize>
                    } else {
                        Some(self@.children[i as int])
                    })
                },
            },
    {
        let mut low: usize = 0;
        let mut high: usize = self.item_count();
        while low < high
            invariant
                total_order::<K>(),
                sorted(self@.items),
                low <= high <= self@.items.len(),
                forall|j: int| 0 <= j < low ==> key_lt(#[trigger] self@.items[j].key, *key),
                forall|j: int| high <= j < self@.items.len() ==> key_lt(*key, #[trigger] self@.items[j].key),
            decreases high - low,
        {
            proof {
                lemma_order_laws::<K>();
            }
            let mid = low + (high - low) / 2;
            let item = self.item(mid).unwrap();
            match compare(&item.key, key) {
                Relation::Equal => {
                    return Ok(mid);
                },
                Relation::Less => {
                    low = mid + 1;
                },
                Relation::Greater => {
                    high = mid;
                },
            }
        }
        Err((low, self.child_id_opt(low)))
    }

    /// Looks `key` up among the items, which are sorted. `Ok` with the value
    /// bound to the key, or with `None` where a leaf does not have the key;
    /// `Err` with the child that may hold it.
    pub fn get(&self, key: &K) -> (r: Result<Option<&V>, usize>)
        requires
            total_order::<K>(),
            sorted(self@.items),
            self@.shaped(),
        ensures
            match r {
                Ok(Some(value)) => exists|i: int|
                    0 <= i < self@.items.len() && self@.items[i].key == *key && *value
                        == self@.items[i].value,
                Ok(None) => self@.is_leaf() && forall|i: int|
                    0 <= i < self@.items.len() ==> self@.items[i].key != *key,
                Err(child) => !self@.is_leaf() && (forall|i: int|
                    0 <= i < self@.items.len() ==> self@.items[i].key != *key) && exists|i: int|
                    0 <= i < self@.children.len() && self@.children[i] == child && (forall|j: int|
                        0 <= j < i ==> key_lt(#[trigger] self@.items[j].key, *key)) && (forall|j: int|
                        i <= j < self@.items.len() ==> key_lt(*key, #[trigger] self@.items[j].key)),
            },
    {
        proof {
            lemma_order_laws::<K>();
        }
        match self.offset_of(key) {
            Ok(offset) => {
                let item = self.item(offset).unwrap();
                Ok(Some(&item.value))
            },
            Err((_, None)) => Ok(None),
            Err((offset, Some(child))) => Err(child),
        }
    }

    /// The items between which the child at `index` stands: the one to its
    /// left and the one to its right, as far as there are such.
    pub fn separators(&self, index: usize) -> (r: (Option<&K>, Option<&K>))
        requires
            index <= self@.items.len(),
        ensures
            r.0.is_some() <==> index > 0,
            r.0.is_some() ==> *r.0.unwrap() == self@.items[index - 1].key,
            r.1.is_some() <==> index < self@.items.len(),
            r.1.is_some() ==> *r.1.unwrap() == self@.items[index as int].key,
    {
        let min = if index > 0 {
            Some(&self.item(index - 1).unwrap().key)
        } else {
            None
        };
        let max = match self.item(index) {
            Some(item) => Some(&item.key),
            None => None,
        };
        (min, max)
    }

    /// Whether the node is in order by itself: it names `parent` as its
    /// parent, the number of its items is within bounds (`min` and `max` are
    /// both missing for a root only), its keys are strictly increasing and
    /// lie strictly between `min` and `max`.
    pub fn validate(&self, parent: Option<usize>, min: Option<&K>, max: Option<&K>) -> (r: bool)
        requires
            total_order::<K>(),
        ensures
            r <==> self@.valid(
                parent,
                match min {
                    Some(k) => Some(*k),
                    None => None,
                },
                match max {
                    Some(k) => Some(*k),
                    None => None,
                },
            ),
    {
        proof {
            lemma_order_laws::<K>();
        }
        let ghost view = self@;
        let ghost lo = match min {
            Some(k) => Some(*k),
            None => None::<K>,
        };
        let ghost hi = match max {
            Some(k) => Some(*k),
            None => None::<K>,
        };
        let same_parent = match (self.parent(), parent) {
            (Some(a), Some(b)) => a == b,
            (None, None) => true,
            _ => false,
        };
        if !same_parent {
            return false;
        }
        let count = self.item_count();
        if min.is_some() || max.is_some() {
            if count < MIN_ITEMS || count >= M {
                return false;
            }
        } else {
            if count == 0 || count >= M {
                return false;
            }
        }
        let mut i: usize = 0;
        while i < count
            invariant
                total_order::<K>(),
                view == self@,
                count == view.items.len(),
                i <= count,
                lo == (match min {
                    Some(k) => Some(*k),
                    None => None::<K>,
                }),
                hi == (match max {
                    Some(k) => Some(*k),
                    None => None::<K>,
                }),
                forall|a: int, b: int| 0 <= a < b < i ==> key_lt(#[trigger] view.items[a].key, #[trigger] view.items[b].key),
                forall|a: int| 0 <= a < i ==> crate::order::between(lo, (#[trigger] view.items[a]).key, hi),
            decreases count - i,
        {
            proof {
                lemma_order_laws::<K>();
            }
            let key = &self.item(i).unwrap().key;
            if i > 0 {
                let before = &self.item(i - 1).unwrap().key;
                match compare(before, key) {
                    Relation::Less => {},
                    _ => {
                        proof {
                            assert(!key_lt(view.items[i - 1].key, view.items[i as int].key));
                        }
                        return false;
                    },
                }
            }
            if let Some(bound) = min {
                match compare(bound, key) {
                    Relation::Less => {},
                    _ => {
                        proof {
                            assert(!crate::order::between(lo, view.items[i as int].key, hi));
                        }
                        return false;
                    },
                }
            }
            if let Some(bound) = max {
                match compare(key, bound) {
                    Relation::Less => {},
                    _ => {
                        proof {
                            assert(!crate::order::between(lo, view.items[i as int].key, hi));
                        }
                        return false;
                    },
                }
            }
            proof {
                assert forall|a: int, b: int| 0 <= a < b < i + 1 implies key_lt(
                    #[trigger] view.items[a].key,
                    #[trigger] view.items[b].key,
                ) by {
                    if b == i && a < i - 1 {
                        assert(key_lt(view.items[a].key, view.items[i - 1].key));
                    }
                }
            }
            i = i + 1;
        }
        true
    }
}

} // verus!
