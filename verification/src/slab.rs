//! The storage interface of the trees: cells named by an index.

use vstd::prelude::*;

verus! {

/// A way to identify a cell of a slab.
pub trait Index: Copy {
    /// The index that names no cell.
    spec fn nowhere_value() -> Self;

    /// The index that names no cell.
    fn nowhere() -> (index: Self)
        ensures
            index == Self::nowhere_value(),
    ;

    /// Whether this is the index that names no cell.
    fn is_nowhere(&self) -> (r: bool)
        ensures
            r <==> *self == Self::nowhere_value(),
    ;
}

impl Index for usize {
    open spec fn nowhere_value() -> usize {
        usize::MAX
    }

    fn nowhere() -> (index: usize) {
        usize::MAX
    }

    fn is_nowhere(&self) -> (r: bool) {
        *self == usize::MAX
    }
}

/// Read access to a slab: a finite map from indices to cells.
pub trait SlabView<T> {
    /// The slab's own invariant. Every operation needs and keeps it.
    spec fn wf(&self) -> bool;

    /// The occupied cells, by index.
    spec fn cells(&self) -> Map<usize, T>;

    /// The cell at `index`, if it is occupied.
    fn get(&self, index: usize) -> (cell: Option<&T>)
        requires
            self.wf(),
        ensures
            cell == (if self.cells().dom().contains(index) {
                Some(&self.cells()[index])
            } else {
                None::<&T>
            }),
    ;
}

/// A slab: cells can be added, changed and removed.
pub trait Slab<T>: SlabView<T> {
    /// Stores `value` in a cell that was vacant and returns its index. No other
    /// cell changes, and the index is never the one that names no cell.
    fn insert(&mut self, value: T) -> (index: usize)
        requires
            old(self).wf(),
        ensures
            final(self).wf(),
            !old(self).cells().dom().contains(index),
            index != usize::MAX,
            final(self).cells() == old(self).cells().insert(index, value),
    ;

    /// Vacates the cell at `index` and returns what it held; `None`, and no
    /// change, if it was vacant already.
    fn remove(&mut self, index: usize) -> (value: Option<T>)
        requires
            old(self).wf(),
        ensures
            final(self).wf(),
            value == (if old(self).cells().dom().contains(index) {
                Some(old(self).cells()[index])
            } else {
                None::<T>
            }),
            final(self).cells() == old(self).cells().remove(index),
    ;

    /// The cell at `index`, for writing, if it is occupied. What the caller
    /// leaves in it is what the slab holds afterwards.
    fn get_mut(&mut self, index: usize) -> (cell: Option<&mut T>)
        requires
            old(self).wf(),
        ensures
            final(self).wf(),
            cell.is_some() <==> old(self).cells().dom().contains(index),
            cell.is_some() ==> *cell.unwrap() == old(self).cells()[index] && final(self).cells()
                == old(self).cells().insert(index, *final(cell.unwrap())),
            cell.is_none() ==> final(self).cells() == old(self).cells(),
    ;

    /// Empties the slab and returns `true` where the slab belongs to one
    /// collection alone; changes nothing and returns `false` where it may be
    /// shared, so that the collection has to release its cells one by one.
    fn clear_fast(&mut self) -> (cleared: bool)
        requires
            old(self).wf(),
        ensures
            final(self).wf(),
            cleared ==> final(self).cells() == Map::<usize, T>::empty(),
            !cleared ==> final(self).cells() == old(self).cells(),
    ;
}

/// A slab view whose references are plain shared references.
pub trait SlabViewWithSimpleRef<T>: SlabView<T> {
}

/// A slab whose references are plain references.
pub trait SlabWithSimpleRefs<T>: Slab<T> + SlabViewWithSimpleRef<T> {
}

/// A slab that belongs to one collection alone, so that it can be emptied at
/// once.
pub trait OwnedSlab<T>: Slab<T> {
    /// Vacates every cell.
    fn clear(&mut self)
        requires
            old(self).wf(),
        ensures
            final(self).wf(),
            final(self).cells() == Map::<usize, T>::empty(),
    ;
}

} // verus!
