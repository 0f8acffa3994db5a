//! Whether two indices name the same cell.

use vstd::prelude::*;

verus! {

/// Indices that can be compared for naming the same cell.
pub trait PtrEq {
    /// Whether both indices name the same cell.
    spec fn same(&self, other: &Self) -> bool;

    /// Whether both indices name the same cell.
    fn ptr_eq(&self, other: &Self) -> (r: bool)
        ensures
            r == self.same(other),
    ;
}

impl PtrEq for usize {
    open spec fn same(&self, other: &Self) -> bool {
        *self == *other
    }

    fn ptr_eq(&self, other: &Self) -> (r: bool) {
        *self == *other
    }
}

impl PtrEq for u16 {
    open spec fn same(&self, other: &Self) -> bool {
        *self == *other
    }

    fn ptr_eq(&self, other: &Self) -> (r: bool) {
        *self == *other
    }
}

impl<T: PtrEq> PtrEq for Option<T> {
    open spec fn same(&self, other: &Self) -> bool {
        match (self, other) {
            (Some(a), Some(b)) => a.same(b),
            (None, None) => true,
            _ => false,
        }
    }

    fn ptr_eq(&self, other: &Self) -> (r: bool) {
        match (self, other) {
            (Some(a), Some(b)) => a.ptr_eq(b),
            (None, None) => true,
            _ => false,
        }
    }
}

impl<A: PtrEq, B: PtrEq> PtrEq for (A, B) {
    open spec fn same(&self, other: &Self) -> bool {
        self.0.same(&other.0) && self.1.same(&other.1)
    }

    fn ptr_eq(&self, other: &Self) -> (r: bool) {
        self.0.ptr_eq(&other.0) && self.1.ptr_eq(&other.1)
    }
}

} // verus!
