//! What holds of the maps whatever they hold: facts that relate one
//! operation to another.

use vstd::prelude::*;
use crate::iter::keys_between;
use crate::map::lookup;
use crate::order::{key_lt, lemma_order_laws, total_order};
use crate::range::{after_start, before_end, valid_range, Bound};
use crate::tree::next_key;

verus! {

/// A key that is bound to a value and then taken out again leaves the map as
/// it was, and what is taken out is the value that was bound.
pub proof fn law_insert_then_remove<K, V>(map: Map<K, V>, key: K, value: V)
    requires
        !map.dom().contains(key),
    ensures
        lookup(map.insert(key, value), key) == Some(value),
        map.insert(key, value).remove(key) == map,
{
    assert(map.insert(key, value).remove(key) =~= map);
}

/// Binding a value to a key that has one changes that value and nothing
/// else: the keys of the map stay the same.
pub proof fn law_insert_twice<K, V>(map: Map<K, V>, key: K, first: V, second: V)
    ensures
        map.insert(key, first).insert(key, second) == map.insert(key, second),
        map.insert(key, first).insert(key, second).dom() == map.insert(key, first).dom(),
{
    assert(map.insert(key, first).insert(key, second) =~= map.insert(key, second));
    assert(map.insert(key, first).insert(key, second).dom() =~= map.insert(key, first).dom());
}

/// Going from key to next key reaches every greater key: a key of the map
/// that is greater than `k` is the next key of `k` or greater than it.
pub proof fn law_next_key_skips_nothing<K: Ord, V>(model: Map<K, V>, k: K, q: K)
    requires
        total_order::<K>(),
        model.dom().finite(),
        model.dom().contains(q),
        key_lt(k, q),
    ensures
        next_key(model, k).is_some(),
        !key_lt(q, next_key(model, k).unwrap()),
        key_lt(k, next_key(model, k).unwrap()),
        model.dom().contains(next_key(model, k).unwrap()),
{
    lemma_order_laws::<K>();
    if next_key(model, k).is_none() {
        crate::iter::lemma_no_next(model, k);
    }
    crate::iter::lemma_has_next(model, k);
}

/// A range that includes its start and leaves out its end holds its start
/// and not its end, and it holds nothing where the two are the same key. A
/// range without bounds holds every key.
pub proof fn law_half_open_range<K: Ord>(start: K, end: K, q: K)
    requires
        total_order::<K>(),
    ensures
        after_start(Bound::Included(&start), start),
        !before_end(Bound::Excluded(&end), end),
        !(after_start(Bound::Included(&start), q) && before_end(Bound::Excluded(&start), q)),
        after_start(Bound::<&K>::Unbounded, q) && before_end(Bound::<&K>::Unbounded, q),
        after_start(Bound::Included(&start), q) && before_end(Bound::Excluded(&end), q) ==> valid_range(
            Bound::Included(&start),
            Bound::Excluded(&end),
        ),
{
    lemma_order_laws::<K>();
}

/// The keys between a key and no bound, less that key, are the keys from its
/// next key on: an iterator that has given a key has the keys after it
/// still to give.
pub proof fn law_rest_after_key<K: Ord, V>(model: Map<K, V>, k: K)
    requires
        total_order::<K>(),
        model.dom().finite(),
        model.dom().contains(k),
    ensures
        keys_between(model, next_key(model, k), None) == keys_between(model, Some(k), None).remove(k),
{
    lemma_order_laws::<K>();
    if next_key(model, k).is_none() {
        crate::iter::lemma_no_next(model, k);
    } else {
        crate::iter::lemma_has_next(model, k);
    }
    assert(keys_between(model, next_key(model, k), None) =~= keys_between(model, Some(k), None).remove(
        k,
    )) by {
        assert forall|q: K|
            keys_between(model, next_key(model, k), None).contains(q) <==> keys_between(
                model,
                Some(k),
                None,
            ).remove(k).contains(q) by {
            if model.dom().contains(q) && q != k && !key_lt(q, k) {
                assert(key_lt(k, q));
            }
        }
    }
}

} // verus!
