//! The table's algebraic laws, proved once and for all.
//!
//! The operations' contracts tie the table to its abstract map view:
//! `insert` turns the view `m` into `m.insert(k, v)` and returns
//! `spec_get(m, k)`, `get` returns `spec_get(m, k)` and leaves the table
//! unchanged, and `remove` turns `m` into `m.remove(k)` and returns
//! `spec_get(m, k)`. The lemmas below state, over those same views, what the
//! contracts together guarantee of call sequences — for every table, key and
//! value.

use vstd::prelude::*;

verus! {

use crate::hash::bucket_index_of;
use crate::table::{HashMap, spec_get};

/// Insert-then-get round trip: after `insert(k, v)` the table holds `v`
/// under `k`, so a following `get(k)` returns `v`.
pub proof fn lemma_insert_then_get<V>(m: Map<Seq<char>, V>, k: Seq<char>, v: V)
    ensures
        spec_get(m.insert(k, v), k) == Some(v),
{
}

/// Replace semantics: a second `insert(k, v2)` returns the value `v1` that
/// the first `insert(k, v1)` stored, and a following `get(k)` returns `v2`,
/// never `v1`.
pub proof fn lemma_insert_replaces<V>(m: Map<Seq<char>, V>, k: Seq<char>, v1: V, v2: V)
    ensures
        spec_get(m.insert(k, v1), k) == Some(v1),
        spec_get(m.insert(k, v1).insert(k, v2), k) == Some(v2),
{
}

/// Idempotent reads: `get` takes the table by shared reference and its
/// contract pins the result to the table's view and the key alone, so any
/// two results it can return on the same table and key — in particular,
/// repeated reads with no intervening mutation — are identical.
pub proof fn lemma_get_idempotent<'a, V>(
    t: &'a HashMap<V>,
    k: &String,
    r1: Option<&'a V>,
    r2: Option<&'a V>,
)
    requires
        call_ensures(HashMap::<V>::get, (t, k), r1),
        call_ensures(HashMap::<V>::get, (t, k), r2),
    ensures
        r1 == r2,
{
}

/// A miss returns absence: a key is absent from the empty table, and neither
/// inserting nor removing a different key makes it present — so a key never
/// inserted is never found.
pub proof fn lemma_get_missing_key<V>(m: Map<Seq<char>, V>, k: Seq<char>, k2: Seq<char>, v: V)
    requires
        k2 != k,
    ensures
        spec_get(Map::<Seq<char>, V>::empty(), k) is None,
        spec_get(m.insert(k2, v), k) == spec_get(m, k),
        spec_get(m.remove(k2), k) == spec_get(m, k),
{
}

/// Remove-then-miss: after `insert(k, v)`, `remove(k)` returns `v`, and a
/// following `get(k)` finds nothing.
pub proof fn lemma_remove_then_miss<V>(m: Map<Seq<char>, V>, k: Seq<char>, v: V)
    ensures
        spec_get(m.insert(k, v), k) == Some(v),
        spec_get(m.insert(k, v).remove(k), k) is None,
{
}

/// Removing an absent key returns absence and leaves the view unchanged
/// (`remove`'s own contract adds that the table itself is then untouched).
pub proof fn lemma_remove_absent<V>(m: Map<Seq<char>, V>, k: Seq<char>)
    requires
        !m.contains_key(k),
    ensures
        spec_get(m, k) is None,
        m.remove(k) == m,
{
    assert(m.remove(k) =~= m);
}

/// Bucket isolation: keys that hash to different bucket indices are distinct
/// keys, so inserting or removing one never affects the other's presence or
/// value.
pub proof fn lemma_bucket_isolation<V>(
    m: Map<Seq<char>, V>,
    k1: Seq<char>,
    k2: Seq<char>,
    v: V,
)
    requires
        bucket_index_of(k1) != bucket_index_of(k2),
    ensures
        k1 != k2,
        spec_get(m.insert(k2, v), k1) == spec_get(m, k1),
        spec_get(m.remove(k2), k1) == spec_get(m, k1),
{
}

} // verus!
