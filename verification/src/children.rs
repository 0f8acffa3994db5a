//! The list of the children of one node, taken down before the children are
//! given another parent. The list is a small vector that keeps up to eight
//! indices in place.

use vstd::prelude::*;
use smallvec::SmallVec;
use crate::node::{Node, M};

verus! {

/// A list of the indices of children: a `SmallVec` with room for eight
/// indices in place.
#[verifier::external_body]
pub struct ChildIds {
    list: SmallVec<[usize; 8]>,
}

/// The indices that a list of children holds, in order.
pub uninterp spec fn child_ids(list: ChildIds) -> Seq<usize>;

/// `SmallVec::new`: a list that holds nothing.
#[verifier::external_body]
pub(crate) fn ids_new() -> (list: ChildIds)
    ensures
        child_ids(list) == Seq::<usize>::empty(),
{
    ChildIds { list: SmallVec::new() }
}

/// `SmallVec::push`: the index is put behind those that the list holds. With
/// at most `M` indices in the list the new capacity cannot overflow.
#[verifier::external_body]
pub(crate) fn ids_push(list: &mut ChildIds, id: usize)
    requires
        child_ids(*old(list)).len() <= M,
    ensures
        child_ids(*final(list)) == child_ids(*old(list)).push(id),
{
    list.list.push(id)
}

/// `SmallVec::len`: the number of indices that the list holds.
#[verifier::external_body]
pub(crate) fn ids_len(list: &ChildIds) -> (len: usize)
    ensures
        len == child_ids(*list).len(),
{
    list.list.len()
}

/// Indexing a `SmallVec`: the index at the place `at`, which must be a place
/// of the list.
#[verifier::external_body]
pub(crate) fn ids_get(list: &ChildIds, at: usize) -> (id: usize)
    requires
        at < child_ids(*list).len(),
    ensures
        id == child_ids(*list)[at as int],
{
    list.list[at]
}

/// The children of `node`, in order.
pub(crate) fn children_of<K, V>(node: &Node<K, V>) -> (children: ChildIds)
    requires
        node@.items.len() <= M,
        node@.shaped(),
    ensures
        child_ids(children) == node@.children,
{
    let count = node.child_count();
    let mut children = ids_new();
    let mut i: usize = 0;
    while i < count
        invariant
            i <= count,
            count == node@.children.len(),
            count <= M + 1,
            child_ids(children) == node@.children.subrange(0, i as int),
        decreases count - i,
    {
        ids_push(&mut children, node.child_id(i));
        i = i + 1;
        assert(child_ids(children) =~= node@.children.subrange(0, i as int));
    }
    assert(child_ids(children) =~= node@.children);
    children
}

} // verus!
