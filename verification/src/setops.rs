//! Unions, intersections and differences of two sets: iterators that go
//! through both sets in step, in order.

use vstd::prelude::*;
use crate::iter::Iter;
use crate::node::Node;
use crate::order::{compare, key_lt, lemma_order_laws, total_order, Relation};
use crate::set::BTreeSet;
use crate::slab::SlabView;

verus! {

/// Iterates the elements that are in one of two sets or in both, in order.
/// An element of both sets is taken from the first one.
#[verifier::reject_recursive_types(T)]
pub struct Union<'a, T, C, D> {
    it1: Iter<'a, T, (), C>,
    it2: Iter<'a, T, (), D>,
}

/// Iterates the elements that are in both of two sets, in order.
#[verifier::reject_recursive_types(T)]
pub struct Intersection<'a, T, C, D> {
    it1: Iter<'a, T, (), C>,
    it2: Iter<'a, T, (), D>,
}

/// Iterates the elements of one set that are not in another, in order.
#[verifier::reject_recursive_types(T)]
pub struct Difference<'a, T, C, D> {
    it1: Iter<'a, T, (), C>,
    it2: Iter<'a, T, (), D>,
}

/// Iterates the elements that are in one of two sets but not in both, in
/// order.
#[verifier::reject_recursive_types(T)]
pub struct SymmetricDifference<'a, T, C, D> {
    it1: Iter<'a, T, (), C>,
    it2: Iter<'a, T, (), D>,
}

impl<'a, T: Ord, C: SlabView<Node<T, ()>>, D: SlabView<Node<T, ()>>> Union<'a, T, C, D> {
    /// The elements still to come.
    pub closed spec fn remaining(&self) -> Set<T> {
        self.it1.remaining().union(self.it2.remaining())
    }

    /// Both sets are well formed, and the iterator is at a place of each.
    pub closed spec fn wf(&self) -> bool {
        self.it1.wf() && self.it2.wf() && total_order::<T>()
    }

    /// The elements of the first set that the iterator has not passed.
    pub closed spec fn first(&self) -> Set<T> {
        self.it1.remaining()
    }

    /// The elements of the second set that the iterator has not passed.
    pub closed spec fn second(&self) -> Set<T> {
        self.it2.remaining()
    }

    /// The bounds of the number of elements still to come: the lesser of the
    /// numbers of elements that the iterator has not passed in the two sets,
    /// and their sum, if a number can hold it.
    pub fn size_hint(&self) -> (hint: (usize, Option<usize>))
        requires
            self.wf(),
        ensures
            hint.0 == (if self.first().len() <= self.second().len() {
                self.first().len()
            } else {
                self.second().len()
            }),
            hint.1 == (if self.first().len() + self.second().len() <= usize::MAX {
                Some((self.first().len() + self.second().len()) as usize)
            } else {
                None::<usize>
            }),
            hint.0 <= self.remaining().len(),
            hint.1.is_some() ==> self.remaining().len() <= hint.1.unwrap(),
    {
        let len1 = self.it1.len();
        let len2 = self.it2.len();
        proof {
            self.it1.lemma_finite();
            self.it2.lemma_finite();
            vstd::set_lib::lemma_len_subset(self.it1.remaining(), self.remaining());
            vstd::set_lib::lemma_len_subset(self.it2.remaining(), self.remaining());
            vstd::set_lib::lemma_len_union(self.it1.remaining(), self.it2.remaining());
        }
        let low = if len1 <= len2 {
            len1
        } else {
            len2
        };
        (low, len1.checked_add(len2))
    }

    /// Takes the least of the elements still to come.
    pub fn next(&mut self) -> (element: Option<&'a T>)
        where
            T: 'a,
        requires
            old(self).wf(),
        ensures
            final(self).wf(),
            element.is_none() <==> old(self).remaining() =~= Set::<T>::empty(),
            element.is_none() ==> final(self).remaining() == old(self).remaining(),
            element.is_some() ==> {
                &&& old(self).remaining().contains(*element.unwrap())
                &&& forall|q: T| old(self).remaining().contains(q) ==> !key_lt(q, *element.unwrap())
                &&& final(self).remaining() == old(self).remaining().remove(*element.unwrap())
            },
    {
        proof {
            lemma_order_laws::<T>();
        }
        let ghost r1 = self.it1.remaining();
        let ghost r2 = self.it2.remaining();
        proof {
            self.it1.lemma_finite();
            self.it2.lemma_finite();
        }
        match (self.it1.peek(), self.it2.peek()) {
            (Some((v1, _)), Some((v2, _))) => {
                match compare(v1, v2) {
                    Relation::Equal => {
                        self.it1.next();
                        self.it2.next();
                        proof {
                            assert(self.remaining() =~= r1.union(r2).remove(*v1));
                        }
                        Some(v1)
                    },
                    Relation::Less => {
                        self.it1.next();
                        proof {
                            assert(self.remaining() =~= r1.union(r2).remove(*v1));
                        }
                        Some(v1)
                    },
                    Relation::Greater => {
                        self.it2.next();
                        proof {
                            assert(self.remaining() =~= r1.union(r2).remove(*v2));
                        }
                        Some(v2)
                    },
                }
            },
            (Some((v1, _)), None) => {
                self.it1.next();
                proof {
                    vstd::set_lib::lemma_set_empty_equivalency_len(r2);
                    assert(self.remaining() =~= r1.union(r2).remove(*v1));
                }
                Some(v1)
            },
            (None, Some((v2, _))) => {
                self.it2.next();
                proof {
                    vstd::set_lib::lemma_set_empty_equivalency_len(r1);
                    assert(self.remaining() =~= r1.union(r2).remove(*v2));
                }
                Some(v2)
            },
            (None, None) => {
                proof {
                    vstd::set_lib::lemma_set_empty_equivalency_len(r1);
                    vstd::set_lib::lemma_set_empty_equivalency_len(r2);
                }
                None
            },
        }
    }
}

impl<'a, T: Ord, C: SlabView<Node<T, ()>>, D: SlabView<Node<T, ()>>> Intersection<'a, T, C, D> {
    /// The elements still to come.
    pub closed spec fn remaining(&self) -> Set<T> {
        self.it1.remaining().intersect(self.it2.remaining())
    }

    /// Both sets are well formed, and the iterator is at a place of each.
    pub closed spec fn wf(&self) -> bool {
        self.it1.wf() && self.it2.wf() && total_order::<T>()
    }

    /// The elements of the first set that the iterator has not passed.
    pub closed spec fn first(&self) -> Set<T> {
        self.it1.remaining()
    }

    /// The elements of the second set that the iterator has not passed.
    pub closed spec fn second(&self) -> Set<T> {
        self.it2.remaining()
    }

    /// Nothing, and the lesser of the numbers of elements that the iterator
    /// has not passed in the two sets: no more elements are to come.
    pub fn size_hint(&self) -> (hint: (usize, Option<usize>))
        requires
            self.wf(),
        ensures
            hint.0 == 0,
            hint.1 == Some(
                if self.first().len() <= self.second().len() {
                    self.first().len() as usize
                } else {
                    self.second().len() as usize
                },
            ),
            self.remaining().len() <= hint.1.unwrap(),
    {
        let len1 = self.it1.len();
        let len2 = self.it2.len();
        proof {
            self.it1.lemma_finite();
            self.it2.lemma_finite();
            vstd::set_lib::lemma_len_subset(self.remaining(), self.it1.remaining());
            vstd::set_lib::lemma_len_subset(self.remaining(), self.it2.remaining());
        }
        if len1 <= len2 {
            (0, Some(len1))
        } else {
            (0, Some(len2))
        }
    }

    /// Takes the least of the elements still to come.
    #[verifier::loop_isolation(false)]
    pub fn next(&mut self) -> (element: Option<&'a T>)
        where
            T: 'a,
        requires
            old(self).wf(),
        ensures
            final(self).wf(),
            element.is_none() <==> old(self).remaining() =~= Set::<T>::empty(),
            element.is_none() ==> final(self).remaining() =~= Set::<T>::empty(),
            element.is_some() ==> {
                &&& old(self).remaining().contains(*element.unwrap())
                &&& forall|q: T| old(self).remaining().contains(q) ==> !key_lt(q, *element.unwrap())
                &&& final(self).remaining() == old(self).remaining().remove(*element.unwrap())
            },
    {
        proof {
            lemma_order_laws::<T>();
        }
        let ghost start = self.remaining();
        loop
            invariant
                self.wf(),
                total_order::<T>(),
                self.remaining() =~= start,
            decreases self.it1.remaining().len() + self.it2.remaining().len(),
        {
            let ghost r1 = self.it1.remaining();
            let ghost r2 = self.it2.remaining();
            proof {
                self.it1.lemma_finite();
                self.it2.lemma_finite();
            }
            match (self.it1.peek(), self.it2.peek()) {
                (Some((v1, _)), Some((v2, _))) => {
                    proof {
                        lemma_order_laws::<T>();
                    }
                    match compare(v1, v2) {
                        Relation::Equal => {
                            self.it1.next();
                            self.it2.next();
                            proof {
                                assert(self.remaining() =~= start.remove(*v1));
                            }
                            return Some(v1);
                        },
                        Relation::Less => {
                            self.it1.next();
                            proof {
                                assert(self.remaining() =~= start);
                            }
                        },
                        Relation::Greater => {
                            self.it2.next();
                            proof {
                                assert(self.remaining() =~= start);
                            }
                        },
                    }
                },
                (None, _) => {
                    proof {
                        vstd::set_lib::lemma_set_empty_equivalency_len(r1);
                    }
                    return None;
                },
                (_, None) => {
                    proof {
                        vstd::set_lib::lemma_set_empty_equivalency_len(r2);
                    }
                    return None;
                },
            }
        }
    }
}

impl<'a, T: Ord, C: SlabView<Node<T, ()>>, D: SlabView<Node<T, ()>>> Difference<'a, T, C, D> {
    /// The elements still to come.
    pub closed spec fn remaining(&self) -> Set<T> {
        self.it1.remaining().difference(self.it2.remaining())
    }

    /// Both sets are well formed, and the iterator is at a place of each.
    pub closed spec fn wf(&self) -> bool {
        self.it1.wf() && self.it2.wf() && total_order::<T>()
    }

    /// The elements of the first set that the iterator has not passed.
    pub closed spec fn first(&self) -> Set<T> {
        self.it1.remaining()
    }

    /// The elements of the second set that the iterator has not passed.
    pub closed spec fn second(&self) -> Set<T> {
        self.it2.remaining()
    }

    /// By how many the elements that the iterator has not passed in the
    /// first set outnumber those in the second, and the number of those in
    /// the first: the number of elements to come lies between the two.
    pub fn size_hint(&self) -> (hint: (usize, Option<usize>))
        requires
            self.wf(),
        ensures
            hint.0 == (if self.first().len() >= self.second().len() {
                self.first().len() - self.second().len()
            } else {
                0
            }),
            hint.1 == Some(self.first().len() as usize),
            hint.0 <= self.remaining().len() <= hint.1.unwrap(),
    {
        let len1 = self.it1.len();
        let len2 = self.it2.len();
        proof {
            self.it1.lemma_finite();
            self.it2.lemma_finite();
            let a = self.it1.remaining();
            let b = self.it2.remaining();
            vstd::set_lib::lemma_len_subset(self.remaining(), a);
            vstd::set_lib::lemma_len_union(self.remaining(), b);
            vstd::set_lib::lemma_len_subset(a, self.remaining().union(b));
        }
        (len1.saturating_sub(len2), Some(len1))
    }

    /// Takes the least of the elements still to come.
    #[verifier::loop_isolation(false)]
    pub fn next(&mut self) -> (element: Option<&'a T>)
        where
            T: 'a,
        requires
            old(self).wf(),
        ensures
            final(self).wf(),
            element.is_none() <==> old(self).remaining() =~= Set::<T>::empty(),
            element.is_none() ==> final(self).remaining() =~= Set::<T>::empty(),
            element.is_some() ==> {
                &&& old(self).remaining().contains(*element.unwrap())
                &&& forall|q: T| old(self).remaining().contains(q) ==> !key_lt(q, *element.unwrap())
                &&& final(self).remaining() == old(self).remaining().remove(*element.unwrap())
            },
    {
        proof {
            lemma_order_laws::<T>();
        }
        let ghost start = self.remaining();
        loop
            invariant
                self.wf(),
                total_order::<T>(),
                self.remaining() =~= start,
            decreases self.it1.remaining().len() + self.it2.remaining().len(),
        {
            let ghost r1 = self.it1.remaining();
            let ghost r2 = self.it2.remaining();
            proof {
                self.it1.lemma_finite();
                self.it2.lemma_finite();
            }
            match self.it1.peek() {
                Some((value, _)) => {
                    proof {
                        lemma_order_laws::<T>();
                    }
                    match self.it2.peek() {
                        Some((other, _)) => match compare(value, other) {
                            Relation::Equal => {
                                self.it1.next();
                                proof {
                                    assert(self.remaining() =~= start);
                                }
                            },
                            Relation::Greater => {
                                self.it2.next();
                                proof {
                                    assert(self.remaining() =~= start);
                                }
                            },
                            Relation::Less => {
                                self.it1.next();
                                proof {
                                    assert(self.remaining() =~= start.remove(*value));
                                }
                                return Some(value);
                            },
                        },
                        None => {
                            self.it1.next();
                            proof {
                                vstd::set_lib::lemma_set_empty_equivalency_len(r2);
                                assert(self.remaining() =~= start.remove(*value));
                            }
                            return Some(value);
                        },
                    }
                },
                None => {
                    proof {
                        vstd::set_lib::lemma_set_empty_equivalency_len(r1);
                    }
                    return None;
                },
            }
        }
    }
}

impl<'a, T: Ord, C: SlabView<Node<T, ()>>, D: SlabView<Node<T, ()>>> SymmetricDifference<
    'a,
    T,
    C,
    D,
> {
    /// The elements still to come.
    pub closed spec fn remaining(&self) -> Set<T> {
        self.it1.remaining().difference(self.it2.remaining()).union(
            self.it2.remaining().difference(self.it1.remaining()),
        )
    }

    /// Both sets are well formed, and the iterator is at a place of each.
    pub closed spec fn wf(&self) -> bool {
        self.it1.wf() && self.it2.wf() && total_order::<T>()
    }

    /// The elements of the first set that the iterator has not passed.
    pub closed spec fn first(&self) -> Set<T> {
        self.it1.remaining()
    }

    /// The elements of the second set that the iterator has not passed.
    pub closed spec fn second(&self) -> Set<T> {
        self.it2.remaining()
    }

    /// Nothing, and the sum of the numbers of elements that the iterator has
    /// not passed in the two sets, if a number can hold it: no more elements
    /// are to come.
    pub fn size_hint(&self) -> (hint: (usize, Option<usize>))
        requires
            self.wf(),
        ensures
            hint.0 == 0,
            hint.1 == (if self.first().len() + self.second().len() <= usize::MAX {
                Some((self.first().len() + self.second().len()) as usize)
            } else {
                None::<usize>
            }),
            hint.1.is_some() ==> self.remaining().len() <= hint.1.unwrap(),
    {
        let len1 = self.it1.len();
        let len2 = self.it2.len();
        proof {
            self.it1.lemma_finite();
            self.it2.lemma_finite();
            let a = self.it1.remaining();
            let b = self.it2.remaining();
            vstd::set_lib::lemma_len_union(a, b);
            vstd::set_lib::lemma_len_subset(self.remaining(), a.union(b));
        }
        (0, len1.checked_add(len2))
    }

    /// Takes the least of the elements still to come.
    #[verifier::loop_isolation(false)]
    pub fn next(&mut self) -> (element: Option<&'a T>)
        where
            T: 'a,
        requires
            old(self).wf(),
        ensures
            final(self).wf(),
            element.is_none() <==> old(self).remaining() =~= Set::<T>::empty(),
            element.is_none() ==> final(self).remaining() =~= Set::<T>::empty(),
            element.is_some() ==> {
                &&& old(self).remaining().contains(*element.unwrap())
                &&& forall|q: T| old(self).remaining().contains(q) ==> !key_lt(q, *element.unwrap())
                &&& final(self).remaining() == old(self).remaining().remove(*element.unwrap())
            },
    {
        proof {
            lemma_order_laws::<T>();
        }
        let ghost start = self.remaining();
        loop
            invariant
                self.wf(),
                total_order::<T>(),
                self.remaining() =~= start,
            decreases self.it1.remaining().len() + self.it2.remaining().len(),
        {
            let ghost r1 = self.it1.remaining();
            let ghost r2 = self.it2.remaining();
            proof {
                self.it1.lemma_finite();
                self.it2.lemma_finite();
            }
            proof {
                lemma_order_laws::<T>();
            }
            match (self.it1.peek(), self.it2.peek()) {
                (Some((v1, _)), Some((v2, _))) => match compare(v1, v2) {
                    Relation::Equal => {
                        self.it1.next();
                        self.it2.next();
                        proof {
                            assert(self.remaining() =~= start);
                        }
                    },
                    Relation::Less => {
                        self.it1.next();
                        proof {
                            assert(self.remaining() =~= start.remove(*v1));
                        }
                        return Some(v1);
                    },
                    Relation::Greater => {
                        self.it2.next();
                        proof {
                            assert(self.remaining() =~= start.remove(*v2));
                        }
                        return Some(v2);
                    },
                },
                (Some((v1, _)), None) => {
                    self.it1.next();
                    proof {
                        vstd::set_lib::lemma_set_empty_equivalency_len(r2);
                        assert(self.remaining() =~= start.remove(*v1));
                    }
                    return Some(v1);
                },
                (None, Some((v2, _))) => {
                    self.it2.next();
                    proof {
                        vstd::set_lib::lemma_set_empty_equivalency_len(r1);
                        assert(self.remaining() =~= start.remove(*v2));
                    }
                    return Some(v2);
                },
                (None, None) => {
                    proof {
                        vstd::set_lib::lemma_set_empty_equivalency_len(r1);
                        vstd::set_lib::lemma_set_empty_equivalency_len(r2);
                    }
                    return None;
                },
            }
        }
    }
}

impl<T: Ord> BTreeSet<T> {
    /// An iterator over the elements that are in this set or in `other`, in
    /// order.
    pub fn union<'a, C: SlabView<Node<T, ()>>, D: SlabView<Node<T, ()>>>(
        &'a self,
        store: &'a C,
        other: &'a BTreeSet<T>,
        other_store: &'a D,
    ) -> (iter: Union<'a, T, C, D>)
        requires
            self.wf(store),
            other.wf(other_store),
        ensures
            iter.wf(),
            iter.remaining() == self@.union(other@),
            iter.first() == self@,
            iter.second() == other@,
    {
        Union { it1: self.iter(store), it2: other.iter(other_store) }
    }

    /// An iterator over the elements that are in this set and in `other`, in
    /// order.
    pub fn intersection<'a, C: SlabView<Node<T, ()>>, D: SlabView<Node<T, ()>>>(
        &'a self,
        store: &'a C,
        other: &'a BTreeSet<T>,
        other_store: &'a D,
    ) -> (iter: Intersection<'a, T, C, D>)
        requires
            self.wf(store),
            other.wf(other_store),
        ensures
            iter.wf(),
            iter.remaining() == self@.intersect(other@),
            iter.first() == self@,
            iter.second() == other@,
    {
        Intersection { it1: self.iter(store), it2: other.iter(other_store) }
    }

    /// An iterator over the elements of this set that are not in `other`, in
    /// order.
    pub fn difference<'a, C: SlabView<Node<T, ()>>, D: SlabView<Node<T, ()>>>(
        &'a self,
        store: &'a C,
        other: &'a BTreeSet<T>,
        other_store: &'a D,
    ) -> (iter: Difference<'a, T, C, D>)
        requires
            self.wf(store),
            other.wf(other_store),
        ensures
            iter.wf(),
            iter.remaining() == self@.difference(other@),
            iter.first() == self@,
            iter.second() == other@,
    {
        Difference { it1: self.iter(store), it2: other.iter(other_store) }
    }

    /// An iterator over the elements that are in this set or in `other` but
    /// not in both, in order.
    pub fn symmetric_difference<'a, C: SlabView<Node<T, ()>>, D: SlabView<Node<T, ()>>>(
        &'a self,
        store: &'a C,
        other: &'a BTreeSet<T>,
        other_store: &'a D,
    ) -> (iter: SymmetricDifference<'a, T, C, D>)
        requires
            self.wf(store),
            other.wf(other_store),
        ensures
            iter.wf(),
            iter.remaining() == self@.difference(other@).union(other@.difference(self@)),
            iter.first() == self@,
            iter.second() == other@,
    {
        SymmetricDifference { it1: self.iter(store), it2: other.iter(other_store) }
    }

    /// Whether this set and `other` have no element in common.
    pub fn is_disjoint<C: SlabView<Node<T, ()>>, D: SlabView<Node<T, ()>>>(
        &self,
        store: &C,
        other: &BTreeSet<T>,
        other_store: &D,
    ) -> (r: bool)
        requires
            self.wf(store),
            other.wf(other_store),
        ensures
            r <==> self@.disjoint(other@),
    {
        let mut common = self.intersection(store, other, other_store);
        let first = common.next();
        proof {
            if first.is_some() {
                assert(self@.intersect(other@).contains(*first.unwrap()));
            } else {
                assert forall|q: T| !(self@.contains(q) && other@.contains(q)) by {
                    if self@.contains(q) && other@.contains(q) {
                        assert(self@.intersect(other@).contains(q));
                    }
                }
            }
        }
        first.is_none()
    }

    /// Whether every element of this set is an element of `other`.
    pub fn is_subset<C: SlabView<Node<T, ()>>, D: SlabView<Node<T, ()>>>(
        &self,
        store: &C,
        other: &BTreeSet<T>,
        other_store: &D,
    ) -> (r: bool)
        requires
            self.wf(store),
            other.wf(other_store),
        ensures
            r <==> self@.subset_of(other@),
    {
        let mut missing = self.difference(store, other, other_store);
        let first = missing.next();
        proof {
            if first.is_some() {
                assert(self@.difference(other@).contains(*first.unwrap()));
            } else {
                assert forall|q: T| self@.contains(q) implies other@.contains(q) by {
                    if !other@.contains(q) {
                        assert(self@.difference(other@).contains(q));
                    }
                }
            }
        }
        first.is_none()
    }

    /// Whether every element of `other` is an element of this set.
    pub fn is_superset<C: SlabView<Node<T, ()>>, D: SlabView<Node<T, ()>>>(
        &self,
        store: &C,
        other: &BTreeSet<T>,
        other_store: &D,
    ) -> (r: bool)
        requires
            self.wf(store),
            other.wf(other_store),
        ensures
            r <==> other@.subset_of(self@),
    {
        other.is_subset(other_store, self, store)
    }
}

} // verus!
