//! A dense slab: cells numbered from 0 without gaps in the numbering. A value
//! always goes to the vacant cell with the lowest index, and the slab only
//! grows when no cell is vacant.

use vstd::prelude::*;
use crate::arena::TypedArena;
use crate::slab::{Slab, SlabView, SlabViewWithSimpleRef, SlabWithSimpleRefs};

verus! {

/// A slab that hands out the lowest vacant index.
pub struct DenseSlab<T> {
    arena: TypedArena<Option<T>>,
    lowest: usize,
}

/// The values of the occupied cells of `slots`, by position.
pub open spec fn filled<T>(slots: Seq<Option<T>>) -> Map<usize, T> {
    Map::new(|i: usize| i < slots.len() && slots[i as int] is Some, |i: usize| slots[i as int]->0)
}

/// `lowest` is the first vacant position of `slots`, or their number if all
/// are occupied.
pub open spec fn first_vacant<T>(slots: Seq<Option<T>>, lowest: usize) -> bool {
    &&& lowest <= slots.len()
    &&& forall|i: int| 0 <= i < lowest ==> (#[trigger] slots[i]) is Some
    &&& lowest < slots.len() ==> slots[lowest as int] is None
}

/// The lowest index that is not the index of a cell of `cells`.
pub open spec fn lowest_free<T>(cells: Map<usize, T>, index: usize) -> bool {
    &&& !cells.dom().contains(index)
    &&& forall|j: usize| j < index ==> cells.dom().contains(j)
}

impl<T> DenseSlab<T> {
    /// The cells of the slab, occupied or not.
    pub closed spec fn slots(&self) -> Seq<Option<T>> {
        self.arena@
    }

    /// The index that the next value goes to.
    pub closed spec fn next_index(&self) -> usize {
        self.lowest
    }

    /// The index that the next value goes to is the lowest that is free.
    pub proof fn lemma_next_index(&self)
        requires
            self.wf(),
        ensures
            lowest_free(self.cells(), self.next_index()),
    {
    }

    /// Creates an empty slab.
    pub fn new() -> (slab: Self)
        ensures
            slab.wf(),
            slab.cells() == Map::<usize, T>::empty(),
            slab.next_index() == 0,
    {
        let slab = DenseSlab { arena: TypedArena::new(), lowest: 0 };
        assert(slab.cells() =~= Map::<usize, T>::empty());
        slab
    }

    /// Creates an empty slab with room for `capacity` cells.
    pub fn with_capacity(capacity: usize) -> (slab: Self)
        ensures
            slab.wf(),
            slab.cells() == Map::<usize, T>::empty(),
            slab.next_index() == 0,
    {
        let slab = DenseSlab { arena: TypedArena::with_capacity(capacity), lowest: 0 };
        assert(slab.cells() =~= Map::<usize, T>::empty());
        slab
    }

    /// The number of cells, occupied or vacant. Every occupied cell has an
    /// index below it.
    pub fn capacity(&self) -> (n: usize)
        ensures
            n == self.slots().len(),
            forall|i: usize| self.cells().dom().contains(i) ==> i < n,
    {
        self.arena.len()
    }

    /// Vacates every cell and forgets the vacant ones.
    pub fn clear(&mut self)
        ensures
            final(self).wf(),
            final(self).cells() == Map::<usize, T>::empty(),
            final(self).next_index() == 0,
    {
        self.arena.clear();
        self.lowest = 0;
        assert(self.cells() =~= Map::<usize, T>::empty());
    }
}

impl<T> SlabView<T> for DenseSlab<T> {
    closed spec fn wf(&self) -> bool {
        first_vacant(self.arena@, self.lowest)
    }

    closed spec fn cells(&self) -> Map<usize, T> {
        filled(self.arena@)
    }

    fn get(&self, index: usize) -> (cell: Option<&T>) {
        match self.arena.get(index) {
            Some(Some(value)) => Some(value),
            _ => None,
        }
    }
}

impl<T> SlabViewWithSimpleRef<T> for DenseSlab<T> {
}

impl<T> Slab<T> for DenseSlab<T> {
    fn insert(&mut self, value: T) -> (index: usize)
        ensures
            index == old(self).next_index(),
            lowest_free(old(self).cells(), index),
    {
        let at = self.lowest;
        let count = self.arena.len();
        if at == count {
            let index = self.arena.allocate(Some(value));
            self.lowest = index + 1;
            proof {
                assert(final(self).cells() =~= old(self).cells().insert(index, value));
            }
            index
        } else {
            self.arena.replace(at, Some(value));
            let mut next = at + 1;
            while next < count && self.arena.get(next).unwrap().is_some()
                invariant
                    at < next <= count,
                    count == self.arena@.len(),
                    forall|i: int| 0 <= i < next ==> (#[trigger] self.arena@[i]) is Some,
                decreases count - next,
            {
                next = next + 1;
            }
            self.lowest = next;
            proof {
                assert(final(self).cells() =~= old(self).cells().insert(at, value));
            }
            at
        }
    }

    fn remove(&mut self, index: usize) -> (value: Option<T>)
        ensures
            value.is_some() ==> final(self).next_index() == (if index < old(self).next_index() {
                index
            } else {
                old(self).next_index()
            }),
            value.is_none() ==> final(self).next_index() == old(self).next_index(),
    {
        let present = match self.arena.get(index) {
            Some(Some(_)) => true,
            _ => false,
        };
        if !present {
            proof {
                assert(final(self).cells() =~= old(self).cells().remove(index));
            }
            return None;
        }
        let taken = self.arena.replace(index, None);
        if index < self.lowest {
            self.lowest = index;
        }
        proof {
            assert(final(self).cells() =~= old(self).cells().remove(index));
        }
        taken
    }

    fn get_mut(&mut self, index: usize) -> (cell: Option<&mut T>) {
        let ghost slots = self.arena@;
        let ghost lowest = self.lowest;
        proof {
            if index < slots.len() && slots[index as int] is Some {
                assert forall|v: T|
                    first_vacant(#[trigger] slots.update(index as int, Some(v)), lowest) && filled(
                        slots.update(index as int, Some(v)),
                    ) == filled(slots).insert(index, v) by {
                    assert(filled(slots.update(index as int, Some(v))) =~= filled(slots).insert(index, v));
                }
            }
        }
        match self.arena.get_mut(index) {
            Some(slot) => {
                match slot {
                    Some(value) => Some(value),
                    None => None,
                }
            },
            None => None,
        }
    }

    fn clear_fast(&mut self) -> (cleared: bool)
        ensures
            !cleared,
    {
        false
    }
}

impl<T> SlabWithSimpleRefs<T> for DenseSlab<T> {
}

} // verus!
