//! The order on keys that the trees rely on.

use vstd::prelude::*;
use core::cmp::Ordering;
use vstd::std_specs::cmp::OrdSpec;

verus! {

/// The strict order on keys, as the key type's comparison gives it.
pub open spec fn key_lt<K: Ord>(a: K, b: K) -> bool {
    a.cmp_spec(&b) == Ordering::Less
}

/// The key type's comparison is a total order in which two keys compare equal
/// exactly when they are the same value.
pub open spec fn total_order<K: Ord>() -> bool {
    &&& vstd::laws_cmp::obeys_cmp::<K>()
    &&& vstd::laws_eq::obeys_concrete_eq::<K>()
}

/// The outcome of comparing two keys.
#[derive(Clone, Copy, PartialEq, Eq, Structural, Debug)]
pub enum Relation {
    Less,
    Equal,
    Greater,
}

/// Compares two keys.
pub fn compare<K: Ord>(a: &K, b: &K) -> (r: Relation)
    requires
        total_order::<K>(),
    ensures
        r == Relation::Less <==> key_lt(*a, *b),
        r == Relation::Equal <==> *a == *b,
        r == Relation::Greater <==> key_lt(*b, *a),
{
    proof {
        lemma_comparison_laws::<K>();
    }
    match a.cmp(b) {
        Ordering::Less => Relation::Less,
        Ordering::Equal => Relation::Equal,
        Ordering::Greater => Relation::Greater,
    }
}

proof fn lemma_comparison_laws<K: Ord>()
    requires
        total_order::<K>(),
    ensures
        K::obeys_cmp_spec(),
        forall|a: K, b: K| #[trigger] a.cmp_spec(&b) == Ordering::Equal <==> a == b,
        forall|a: K, b: K| #[trigger] key_lt(a, b) <==> b.cmp_spec(&a) == Ordering::Greater,
        forall|a: K, b: K, c: K| #[trigger]
            key_lt(a, b) && #[trigger] key_lt(b, c) ==> key_lt(a, c),
{
    reveal(vstd::laws_cmp::obeys_cmp_partial_ord);
    reveal(vstd::laws_cmp::obeys_cmp_ord);
    reveal(vstd::laws_cmp::obeys_partial_cmp_spec_properties);
    reveal(vstd::laws_eq::obeys_concrete_eq);
    reveal(vstd::laws_eq::obeys_eq_spec_properties);
}

/// A total order is irreflexive, transitive and connected.
pub proof fn lemma_order_laws<K: Ord>()
    requires
        total_order::<K>(),
    ensures
        forall|a: K, b: K, c: K| #[trigger]
            key_lt(a, b) && #[trigger] key_lt(b, c) ==> key_lt(a, c),
        forall|a: K| !#[trigger] key_lt(a, a),
        forall|a: K, b: K| #[trigger] key_lt(a, b) ==> !key_lt(b, a),
        forall|a: K, b: K| a != b ==> #[trigger] key_lt(a, b) || key_lt(b, a),
{
    lemma_comparison_laws::<K>();
}

/// The integers are totally ordered by their comparison.
pub proof fn lemma_integers_totally_ordered()
    ensures
        total_order::<u8>(),
        total_order::<u16>(),
        total_order::<u32>(),
        total_order::<u64>(),
        total_order::<u128>(),
        total_order::<usize>(),
        total_order::<i8>(),
        total_order::<i16>(),
        total_order::<i32>(),
        total_order::<i64>(),
        total_order::<i128>(),
        total_order::<isize>(),
{
    broadcast use vstd::laws_cmp::group_laws_cmp;
    broadcast use vstd::laws_eq::group_laws_eq;

}

/// `lo < k`, where no bound stands for minus infinity.
pub open spec fn above<K: Ord>(lo: Option<K>, k: K) -> bool {
    match lo {
        Some(l) => key_lt(l, k),
        None => true,
    }
}

/// `k < hi`, where no bound stands for plus infinity.
pub open spec fn below<K: Ord>(k: K, hi: Option<K>) -> bool {
    match hi {
        Some(h) => key_lt(k, h),
        None => true,
    }
}

/// `k` lies strictly between `lo` and `hi`.
pub open spec fn between<K: Ord>(lo: Option<K>, k: K, hi: Option<K>) -> bool {
    above(lo, k) && below(k, hi)
}

} // verus!
