//! A typed arena: cells are handed out in allocation order and keep their
//! position for as long as they live.

use vstd::prelude::*;

verus! {

/// An arena that holds objects of one type.
///
/// A cell is named by its position in allocation order. Allocating never
/// moves a cell that exists already, so positions stay valid until the arena
/// is cleared or compacted.
pub struct TypedArena<T> {
    cells: Vec<T>,
}

impl<T> View for TypedArena<T> {
    type V = Seq<T>;

    closed spec fn view(&self) -> Seq<T> {
        self.cells@
    }
}

/// Iterates the cells of an arena in allocation order.
///
/// With `ITER_REF` the iterator is meant for `next_ref`, without it for
/// `next_ptr`, which hands out positions in place of references.
pub struct ArenaGenIter<'a, T, const ITER_REF: bool> {
    arena: &'a TypedArena<T>,
    element_index: usize,
}

impl<T> TypedArena<T> {
    /// Creates a new, empty arena.
    pub fn new() -> (arena: Self)
        ensures
            arena@ == Seq::<T>::empty(),
    {
        TypedArena { cells: Vec::new() }
    }

    /// Creates an empty arena with room for `capacity` cells.
    pub fn with_capacity(capacity: usize) -> (arena: Self)
        ensures
            arena@ == Seq::<T>::empty(),
    {
        TypedArena { cells: Vec::with_capacity(capacity) }
    }

    /// Moves `object` into the arena and returns the position of its cell.
    pub fn allocate(&mut self, object: T) -> (index: usize)
        ensures
            index == old(self)@.len(),
            index < usize::MAX,
            final(self)@ == old(self)@.push(object),
    {
        let index = self.cells.len();
        self.cells.push(object);
        assert(self.cells@.len() == self.cells.len());
        index
    }

    /// Moves every object of `objects` into the arena, in order, and returns
    /// the position of the first of them.
    pub fn allocate_from_iter(&mut self, objects: Vec<T>) -> (start: usize)
        ensures
            start == old(self)@.len(),
            final(self)@ == old(self)@ + objects@,
    {
        let start = self.cells.len();
        let mut objects = objects;
        let ghost all = objects@;
        self.cells.append(&mut objects);
        assert(objects@.len() == 0);
        start
    }

    /// The number of cells in the arena.
    pub fn len(&self) -> (len: usize)
        ensures
            len == self@.len(),
    {
        self.cells.len()
    }

    /// The cell at `index`, if there is one.
    pub fn get(&self, index: usize) -> (cell: Option<&T>)
        ensures
            cell == (if index < self@.len() {
                Some(&self@[index as int])
            } else {
                None::<&T>
            }),
    {
        if index < self.cells.len() {
            Some(&self.cells[index])
        } else {
            None
        }
    }

    /// The cell at `index`, for writing, if there is one.
    pub fn get_mut(&mut self, index: usize) -> (cell: Option<&mut T>)
        ensures
            cell.is_some() <==> index < old(self)@.len(),
            cell.is_some() ==> *cell.unwrap() == old(self)@[index as int] && final(self)@ == old(
                self,
            )@.update(index as int, *final(cell.unwrap())),
            cell.is_none() ==> final(self)@ == old(self)@,
    {
        if index < self.cells.len() {
            Some(&mut self.cells[index])
        } else {
            None
        }
    }

    /// Puts `object` in the cell at `index` and returns what the cell held.
    pub fn replace(&mut self, index: usize, object: T) -> (previous: T)
        requires
            index < old(self)@.len(),
        ensures
            previous == old(self)@[index as int],
            final(self)@ == old(self)@.update(index as int, object),
    {
        let mut object = object;
        core::mem::swap(&mut self.cells[index], &mut object);
        object
    }

    /// Iterates references to all cells, in allocation order.
    pub fn iter(&self) -> (iter: ArenaGenIter<'_, T, true>)
        ensures
            iter.wf(),
            iter.arena() == self,
            iter.position() == 0,
    {
        ArenaGenIter::new(self)
    }

    /// Iterates the positions of all cells, in allocation order.
    pub fn ptr_iter(&self) -> (iter: ArenaGenIter<'_, T, false>)
        ensures
            iter.wf(),
            iter.arena() == self,
            iter.position() == 0,
    {
        ArenaGenIter::new(self)
    }

    /// Removes every cell. Positions handed out before are void afterwards.
    pub fn clear(&mut self)
        ensures
            final(self)@ == Seq::<T>::empty(),
    {
        self.cells.clear();
    }

    /// Destroys the arena and returns its objects in allocation order.
    pub fn into_vec(self) -> (objects: Vec<T>)
        ensures
            objects@ == self@,
    {
        self.cells
    }
}

impl<'a, T, const ITER_REF: bool> ArenaGenIter<'a, T, ITER_REF> {
    /// The arena that is iterated.
    pub closed spec fn arena(&self) -> &'a TypedArena<T> {
        self.arena
    }

    /// The number of cells that were handed out already.
    pub closed spec fn position(&self) -> nat {
        self.element_index as nat
    }

    /// No more cells were handed out than the arena holds.
    pub closed spec fn wf(&self) -> bool {
        self.element_index <= self.arena@.len()
    }

    /// An iterator at the first cell of `arena`.
    pub fn new(arena: &'a TypedArena<T>) -> (iter: Self)
        ensures
            iter.arena() == arena,
            iter.position() == 0,
            iter.wf(),
    {
        ArenaGenIter { arena, element_index: 0 }
    }

    /// The number of cells still to come.
    pub fn remaining(&self) -> (n: usize)
        requires
            self.wf(),
        ensures
            n == self.arena()@.len() - self.position(),
    {
        self.arena.len() - self.element_index
    }

    /// Whether a cell is still to come.
    pub fn has_next(&self) -> (more: bool)
        requires
            self.wf(),
        ensures
            more <==> self.position() < self.arena()@.len(),
    {
        self.remaining() > 0
    }

    /// The position of the next cell; the iterator moves past it.
    pub fn next_ptr(&mut self) -> (index: Option<usize>)
        requires
            old(self).wf(),
        ensures
            final(self).wf(),
            final(self).arena() == old(self).arena(),
            index == (if old(self).position() < old(self).arena()@.len() {
                Some(old(self).position() as usize)
            } else {
                None::<usize>
            }),
            final(self).position() == old(self).position() + (if index.is_some() {
                1nat
            } else {
                0nat
            }),
    {
        let len = self.arena.len();
        if self.element_index >= len {
            return None;
        }
        let index = self.element_index;
        self.element_index = self.element_index + 1;
        Some(index)
    }

    /// The next cell; the iterator moves past it.
    pub fn next_ref(&mut self) -> (cell: Option<&'a T>)
        requires
            old(self).wf(),
        ensures
            final(self).wf(),
            final(self).arena() == old(self).arena(),
            cell == (if old(self).position() < old(self).arena()@.len() {
                Some(&old(self).arena()@[old(self).position() as int])
            } else {
                None::<&T>
            }),
            final(self).position() == old(self).position() + (if cell.is_some() {
                1nat
            } else {
                0nat
            }),
    {
        let arena: &'a TypedArena<T> = self.arena;
        match self.next_ptr() {
            Some(index) => arena.get(index),
            None => None,
        }
    }
}

} // verus!
