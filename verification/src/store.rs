//! The arena back end: vacated cells are chained into a free list, and the
//! cell that was vacated last is used again before the arena grows. A slab
//! that belongs to one tree alone is here too; it is a dense slab.

use vstd::prelude::*;
use crate::arena::TypedArena;
use crate::dense::{lowest_free, DenseSlab};
use crate::slab::{OwnedSlab, Slab, SlabView, SlabViewWithSimpleRef, SlabWithSimpleRefs};

verus! {

/// One cell of a [`Store`].
pub enum Entry<T> {
    /// A value is present.
    Occupied { value: T },
    /// No value is present; `next_free` is the next vacant cell, if any.
    Vacant { next_free: Option<usize> },
}

/// The arena that several trees can share, with a free list threaded through
/// its vacant cells: a value goes to the cell that was vacated last. A cell never moves, so an index stays valid until
/// the cell is removed, whatever is inserted or removed elsewhere.
pub struct Store<T> {
    arena: TypedArena<Entry<T>>,
    next_free: Option<usize>,
    free: Ghost<Seq<usize>>,
}

/// The free list `free` is threaded through the vacant cells of `entries`,
/// starting at `head`.
pub open spec fn chain_ok<T>(entries: Seq<Entry<T>>, head: Option<usize>, free: Seq<usize>) -> bool {
    &&& free.no_duplicates()
    &&& head == (if free.len() > 0 {
        Some(free[0])
    } else {
        None::<usize>
    })
    &&& forall|k: int|
        0 <= k < free.len() ==> {
            &&& (#[trigger] free[k]) < entries.len()
            &&& entries[free[k] as int] == Entry::<T>::Vacant {
                next_free: if k + 1 < free.len() {
                    Some(free[k + 1])
                } else {
                    None::<usize>
                },
            }
        }
}

/// The values of the occupied cells of `entries`, by position.
pub open spec fn occupied<T>(entries: Seq<Entry<T>>) -> Map<usize, T> {
    Map::new(
        |i: usize| i < entries.len() && entries[i as int] is Occupied,
        |i: usize| entries[i as int]->value,
    )
}

proof fn lemma_write_occupied<T>(entries: Seq<Entry<T>>, head: Option<usize>, free: Seq<usize>, index: usize, v: T)
    requires
        chain_ok(entries, head, free),
        index < entries.len(),
        entries[index as int] is Occupied,
    ensures
        chain_ok(entries.update(index as int, Entry::Occupied { value: v }), head, free),
        occupied(entries.update(index as int, Entry::Occupied { value: v })) == occupied(entries).insert(index, v),
{
    let after = entries.update(index as int, Entry::Occupied { value: v });
    assert forall|k: int| 0 <= k < free.len() implies free[k] != index by {
        assert(free[k] < entries.len());
    }
    assert(occupied(after) =~= occupied(entries).insert(index, v));
}

impl<T> Store<T> {
    /// The cells of the arena, occupied or not.
    pub closed spec fn entries(&self) -> Seq<Entry<T>> {
        self.arena@
    }

    /// The index of the cell that the next value goes to: the cell that was
    /// vacated last, or a new cell at the end of the arena if no cell is
    /// vacant.
    pub closed spec fn next_index(&self) -> usize {
        match self.next_free {
            Some(index) => index,
            None => self.arena@.len() as usize,
        }
    }

    /// Creates an empty store.
    pub fn new() -> (store: Self)
        ensures
            store.wf(),
            store.cells() == Map::<usize, T>::empty(),
            store.next_index() == 0,
    {
        let store = Store { arena: TypedArena::new(), next_free: None, free: Ghost(Seq::empty()) };
        assert(store.cells() =~= Map::<usize, T>::empty());
        store
    }

    /// Creates an empty store with room for `capacity` cells.
    pub fn with_capacity(capacity: usize) -> (store: Self)
        ensures
            store.wf(),
            store.cells() == Map::<usize, T>::empty(),
            store.next_index() == 0,
    {
        let store = Store {
            arena: TypedArena::with_capacity(capacity),
            next_free: None,
            free: Ghost(Seq::empty()),
        };
        assert(store.cells() =~= Map::<usize, T>::empty());
        store
    }

    /// Vacates every cell without giving the memory back.
    pub fn clear(&mut self)
        ensures
            final(self).wf(),
            final(self).cells() == Map::<usize, T>::empty(),
            final(self).next_index() == 0,
    {
        self.arena.clear();
        self.next_free = None;
        self.free = Ghost(Seq::empty());
        assert(self.cells() =~= Map::<usize, T>::empty());
    }

    /// The number of cells of the arena, occupied or vacant. Every occupied
    /// cell has an index below it.
    pub fn capacity(&self) -> (n: usize)
        ensures
            n == self.entries().len(),
            forall|i: usize| self.cells().dom().contains(i) ==> i < n,
    {
        self.arena.len()
    }
}

impl<T> SlabView<T> for Store<T> {
    closed spec fn wf(&self) -> bool {
        chain_ok(self.arena@, self.next_free, self.free@)
    }

    closed spec fn cells(&self) -> Map<usize, T> {
        occupied(self.arena@)
    }

    fn get(&self, index: usize) -> (cell: Option<&T>) {
        match self.arena.get(index) {
            Some(Entry::Occupied { value }) => Some(value),
            _ => None,
        }
    }
}

impl<T> SlabViewWithSimpleRef<T> for Store<T> {
}

impl<T> Slab<T> for Store<T> {
    fn insert(&mut self, value: T) -> (index: usize)
        ensures
            index == old(self).next_index(),
    {
        match self.next_free {
            None => {
                let index = self.arena.allocate(Entry::Occupied { value });
                proof {
                    assert(final(self).cells() =~= old(self).cells().insert(index, value));
                }
                index
            },
            Some(index) => {
                let ghost free = self.free@;
                let capacity = self.arena.len();
                assert(free.len() > 0 && index == free[0] && index < capacity);
                let vacated = self.arena.replace(index, Entry::Occupied { value });
                match vacated {
                    Entry::Vacant { next_free } => {
                        self.next_free = next_free;
                    },
                    Entry::Occupied { .. } => {
                        assert(false);
                    },
                }
                self.free = Ghost(free.drop_first());
                proof {
                    let rest = free.drop_first();
                    assert forall|k: int| 0 <= k < rest.len() implies rest[k] != index by {
                        assert(rest[k] == free[k + 1]);
                    }
                    assert(rest.no_duplicates());
                    assert forall|k: int| 0 <= k < rest.len() implies {
                        &&& (#[trigger] rest[k]) < self.arena@.len()
                        &&& self.arena@[rest[k] as int] == Entry::<T>::Vacant {
                            next_free: if k + 1 < rest.len() {
                                Some(rest[k + 1])
                            } else {
                                None::<usize>
                            },
                        }
                    } by {
                        assert(rest[k] == free[k + 1]);
                    }
                    assert(final(self).cells() =~= old(self).cells().insert(index, value));
                }
                index
            },
        }
    }

    fn remove(&mut self, index: usize) -> (value: Option<T>)
        ensures
            value.is_some() ==> final(self).next_index() == index,
            value.is_none() ==> final(self).next_index() == old(self).next_index(),
    {
        let occupied = match self.arena.get(index) {
            Some(Entry::Occupied { .. }) => true,
            _ => false,
        };
        if !occupied {
            proof {
                assert(final(self).cells() =~= old(self).cells().remove(index));
            }
            return None;
        }
        let ghost free = self.free@;
        proof {
            assert forall|k: int| 0 <= k < free.len() implies free[k] != index by {
                assert(free[k] < self.arena@.len());
            }
        }
        let taken = self.arena.replace(index, Entry::Vacant { next_free: self.next_free });
        self.next_free = Some(index);
        self.free = Ghost(seq![index] + free);
        proof {
            let grown = seq![index] + free;
            assert forall|k: int| 0 <= k < grown.len() implies {
                &&& (#[trigger] grown[k]) < self.arena@.len()
                &&& self.arena@[grown[k] as int] == Entry::<T>::Vacant {
                    next_free: if k + 1 < grown.len() {
                        Some(grown[k + 1])
                    } else {
                        None::<usize>
                    },
                }
            } by {
                if k > 0 {
                    assert(grown[k] == free[k - 1]);
                    if k + 1 < grown.len() {
                        assert(grown[k + 1] == free[k]);
                    }
                } else {
                    if grown.len() > 1 {
                        assert(grown[1] == free[0]);
                    }
                }
            }
            assert forall|a: int, b: int| 0 <= a < grown.len() && 0 <= b < grown.len() && a != b implies grown[a] != grown[b] by {
                if a > 0 {
                    assert(grown[a] == free[a - 1]);
                }
                if b > 0 {
                    assert(grown[b] == free[b - 1]);
                }
            }
            assert(final(self).cells() =~= old(self).cells().remove(index));
        }
        match taken {
            Entry::Occupied { value } => Some(value),
            Entry::Vacant { .. } => None,
        }
    }

    fn get_mut(&mut self, index: usize) -> (cell: Option<&mut T>) {
        let ghost free = self.free@;
        let ghost head = self.next_free;
        let ghost entries = self.arena@;
        proof {
            if index < entries.len() && entries[index as int] is Occupied {
                assert forall|v: T|
                    chain_ok(
                        #[trigger] entries.update(index as int, Entry::Occupied { value: v }),
                        head,
                        free,
                    ) && occupied(entries.update(index as int, Entry::Occupied { value: v }))
                        == occupied(entries).insert(index, v) by {
                    lemma_write_occupied(entries, head, free, index, v);
                }
            }
        }
        match self.arena.get_mut(index) {
            Some(entry) => {
                match entry {
                    Entry::Occupied { value } => Some(value),
                    Entry::Vacant { .. } => None,
                }
            },
            None => None,
        }
    }

    fn clear_fast(&mut self) -> (cleared: bool)
        ensures
            !cleared,
    {
        false
    }
}

impl<T> SlabWithSimpleRefs<T> for Store<T> {
}

/// An arena that stores the nodes of many B-trees.
pub type BTreeStore<K, V> = Store<crate::node::Node<K, V>>;

/// A slab that belongs to one tree alone: a dense slab that can be emptied
/// at once.
pub struct OwnedStore<T> {
    inner: DenseSlab<T>,
}

impl<T> OwnedStore<T> {
    /// Creates an empty slab.
    pub fn new() -> (store: Self)
        ensures
            store.wf(),
            store.cells() == Map::<usize, T>::empty(),
    {
        OwnedStore { inner: DenseSlab::new() }
    }
}

impl<T> SlabView<T> for OwnedStore<T> {
    closed spec fn wf(&self) -> bool {
        self.inner.wf()
    }

    closed spec fn cells(&self) -> Map<usize, T> {
        self.inner.cells()
    }

    fn get(&self, index: usize) -> (cell: Option<&T>) {
        self.inner.get(index)
    }
}

impl<T> SlabViewWithSimpleRef<T> for OwnedStore<T> {
}

impl<T> Slab<T> for OwnedStore<T> {
    fn insert(&mut self, value: T) -> (index: usize)
        ensures
            lowest_free(old(self).cells(), index),
    {
        self.inner.insert(value)
    }

    fn remove(&mut self, index: usize) -> (value: Option<T>) {
        self.inner.remove(index)
    }

    fn get_mut(&mut self, index: usize) -> (cell: Option<&mut T>) {
        self.inner.get_mut(index)
    }

    fn clear_fast(&mut self) -> (cleared: bool)
        ensures
            cleared,
            final(self).cells() == Map::<usize, T>::empty(),
    {
        self.inner.clear();
        true
    }
}

impl<T> SlabWithSimpleRefs<T> for OwnedStore<T> {
}

impl<T> OwnedSlab<T> for OwnedStore<T> {
    fn clear(&mut self) {
        self.inner.clear();
    }
}

} // verus!
