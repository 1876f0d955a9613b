//! Laws relating several operations of the map, stated over the `Map` view
//! that the operations' contracts use and proved once for all inputs.

use vstd::prelude::*;

verus! {

/// Round trip: inserting `v` at `k` makes `k` present with value `v` — so an
/// immediate `get(k)` yields `v`, and a `remove(k)` that follows returns `v`
/// — and after that removal `k` is absent, so `get` and `contains_key`
/// report nothing for it.
pub proof fn lemma_insert_remove_round_trip<V>(m: Map<int, V>, k: int, v: V)
    ensures
        m.insert(k, v).contains_key(k),
        m.insert(k, v)[k] == v,
        !m.insert(k, v).remove(k).contains_key(k),
{
}

/// Overwrite: inserting at a key that is already present keeps the key set —
/// and with it the entry count — unchanged, and the value the second
/// insertion replaces is the one the first stored.
pub proof fn lemma_overwrite_keeps_len<V>(m: Map<int, V>, k: int, v1: V, v2: V)
    requires
        m.dom().finite(),
    ensures
        m.insert(k, v1).contains_key(k),
        m.insert(k, v1)[k] == v1,
        m.insert(k, v1).insert(k, v2).dom() == m.insert(k, v1).dom(),
        m.insert(k, v1).insert(k, v2).dom().len() == m.insert(k, v1).dom().len(),
{
    assert(m.insert(k, v1).insert(k, v2).dom() =~= m.insert(k, v1).dom());
}

/// Shrink to empty: removing the only remaining key leaves the map equal to
/// the empty map — the state a fresh construction observes, with no stale
/// window or anchor behind it.
pub proof fn lemma_remove_last_leaves_empty<V>(m: Map<int, V>, k: int)
    requires
        m.dom().finite(),
        m.dom().len() == 1,
        m.contains_key(k),
    ensures
        m.remove(k) == Map::<int, V>::empty(),
{
    m.dom().remove(k).lemma_len0_is_empty();
    assert(m.remove(k) =~= Map::<int, V>::empty());
}

} // verus!
