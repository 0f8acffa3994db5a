//! Positions inside a tree: a node and an offset among its items.

use vstd::prelude::*;

verus! {

/// An offset among the items of a node. Besides the offsets `0, 1, 2, ...`
/// there is the offset before the first item, which counts as `-1`.
#[derive(Clone, Copy, PartialEq, Eq, Structural, Debug)]
pub struct Offset {
    raw: usize,
}

impl Offset {
    /// The offset as a number; `-1` for the offset before the first item.
    pub closed spec fn as_int(self) -> int {
        if self.raw == usize::MAX {
            -1
        } else {
            self.raw as int
        }
    }

    /// The offset that counts `value`.
    pub closed spec fn at(value: int) -> Offset {
        Offset { raw: value as usize }
    }

    /// The offset that counts `value` counts `value`.
    pub proof fn lemma_at(value: int)
        requires
            0 <= value < usize::MAX,
        ensures
            Self::at(value).as_int() == value,
    {
    }

    /// The offset before the first item.
    pub fn before() -> (offset: Self)
        ensures
            offset.as_int() == -1,
    {
        Offset { raw: usize::MAX }
    }

    /// The offset `value`.
    pub fn new(value: usize) -> (offset: Self)
        requires
            value < usize::MAX,
        ensures
            offset.as_int() == value,
    {
        Offset { raw: value }
    }

    /// Whether this is the offset before the first item.
    pub fn is_before(&self) -> (r: bool)
        ensures
            r <==> self.as_int() == -1,
    {
        self.raw == usize::MAX
    }

    /// The offset as a number, unless it is the one before the first item.
    pub fn value(&self) -> (value: Option<usize>)
        ensures
            match value {
                Some(v) => v == self.as_int(),
                None => self.as_int() == -1,
            },
    {
        if self.raw == usize::MAX {
            None
        } else {
            Some(self.raw)
        }
    }

    /// The offset as a number.
    pub fn unwrap(&self) -> (value: usize)
        requires
            self.as_int() >= 0,
        ensures
            value == self.as_int(),
    {
        self.raw
    }

    /// Moves the offset one place to the right.
    pub fn incr(&mut self)
        requires
            old(self).as_int() + 1 < usize::MAX,
        ensures
            final(self).as_int() == old(self).as_int() + 1,
    {
        if self.raw == usize::MAX {
            self.raw = 0;
        } else {
            self.raw = self.raw + 1;
        }
    }

    /// Moves the offset one place to the left.
    pub fn decr(&mut self)
        requires
            old(self).as_int() >= 0,
        ensures
            final(self).as_int() == old(self).as_int() - 1,
    {
        if self.raw == 0 {
            self.raw = usize::MAX;
        } else {
            self.raw = self.raw - 1;
        }
    }

    /// An offset is `-1` or a number that an index can hold.
    pub proof fn lemma_range(self)
        ensures
            -1 <= self.as_int() < usize::MAX,
    {
    }

    /// Two offsets that count the same are the same.
    pub proof fn lemma_same(self, other: Offset)
        requires
            self.as_int() == other.as_int(),
        ensures
            self == other,
    {
    }
}

/// A position in a tree: the index of a node and an offset among its items.
/// The address `nowhere` stands for no position at all, as in an empty tree.
#[derive(Clone, Copy, PartialEq, Eq, Structural, Debug)]
pub struct Address {
    pub id: usize,
    pub offset: Offset,
}

impl Address {
    /// The position `offset` of the node `id`.
    pub fn new(id: usize, offset: Offset) -> (addr: Self)
        ensures
            addr == (Address { id, offset }),
    {
        Address { id, offset }
    }

    /// The address of no position.
    pub fn nowhere() -> (addr: Self)
        ensures
            addr.id == usize::MAX,
            addr.offset.as_int() == 0,
    {
        Address { id: usize::MAX, offset: Offset::new(0) }
    }

    /// Whether this is the address of no position.
    pub fn is_nowhere(&self) -> (r: bool)
        ensures
            r <==> self.id == usize::MAX,
    {
        self.id == usize::MAX
    }
}

} // verus!
