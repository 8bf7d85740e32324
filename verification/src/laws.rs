//! General laws of the map's abstract contents. The executable functions
//! promise, in their contracts, that `insert` turns the view `m` into
//! `m.insert(key, value)` and that `get` reads the view; these laws state
//! what follows for whole histories of inserts.

use vstd::prelude::*;

use crate::trie_map::map_of_entries;

verus! {

/// Round-trip: after inserting `v` under `k`, looking up `k` yields `v`.
pub proof fn lemma_insert_then_get<V>(m: Map<Seq<u8>, V>, k: Seq<u8>, v: V)
    ensures
        m.insert(k, v).contains_key(k),
        m.insert(k, v)[k] == v,
{
}

/// A key that no entry of the history carries is absent from the map the
/// history builds.
pub proof fn lemma_never_inserted_absent<V>(s: Seq<(Seq<u8>, V)>, k: Seq<u8>)
    requires
        forall|i: int| 0 <= i < s.len() ==> s[i].0 != k,
    ensures
        !map_of_entries(s).contains_key(k),
    decreases s.len(),
{
    if s.len() > 0 {
        assert(forall|i: int| 0 <= i < s.drop_last().len() ==> s.drop_last()[i] == s[i]);
        lemma_never_inserted_absent(s.drop_last(), k);
    }
}

/// The most recent entry for a key decides the value stored under it.
pub proof fn lemma_last_entry_wins<V>(s: Seq<(Seq<u8>, V)>, i: int)
    requires
        0 <= i < s.len(),
        forall|j: int| i < j < s.len() ==> s[j].0 != s[i].0,
    ensures
        map_of_entries(s).contains_key(s[i].0),
        map_of_entries(s)[s[i].0] == s[i].1,
    decreases s.len(),
{
    if i + 1 < s.len() {
        assert(forall|j: int| 0 <= j < s.drop_last().len() ==> s.drop_last()[j] == s[j]);
        lemma_last_entry_wins(s.drop_last(), i);
        assert(s.last() == s[s.len() - 1]);
        assert(s.last().0 != s[i].0);
    } else {
        assert(s.last() == s[i]);
    }
}

/// Prefix independence: inserting under `k` leaves the binding of every
/// other key, be it a prefix of `k`, an extension of it, or diverging,
/// exactly as it was.
pub proof fn lemma_insert_preserves_other_keys<V>(
    m: Map<Seq<u8>, V>,
    k: Seq<u8>,
    v: V,
    other: Seq<u8>,
)
    requires
        other != k,
    ensures
        m.insert(k, v).contains_key(other) <==> m.contains_key(other),
        m.contains_key(other) ==> m.insert(k, v)[other] == m[other],
{
}

/// Inserting under two distinct keys commutes.
pub proof fn lemma_insert_commutes<V>(m: Map<Seq<u8>, V>, k1: Seq<u8>, v1: V, k2: Seq<u8>, v2: V)
    requires
        k1 != k2,
    ensures
        m.insert(k1, v1).insert(k2, v2) == m.insert(k2, v2).insert(k1, v1),
{
    assert(m.insert(k1, v1).insert(k2, v2) =~= m.insert(k2, v2).insert(k1, v1));
}

/// Each key appears at most once in the history.
pub open spec fn distinct_keys<V>(s: Seq<(Seq<u8>, V)>) -> bool {
    forall|i: int, j: int| 0 <= i < j < s.len() ==> s[i].0 != s[j].0
}

/// The order of insertion does not matter: two histories made of the same
/// entries, each naming every key once, build the same map.
pub proof fn lemma_insertion_order_irrelevant<V>(s1: Seq<(Seq<u8>, V)>, s2: Seq<(Seq<u8>, V)>)
    requires
        s1.to_multiset() == s2.to_multiset(),
        distinct_keys(s1),
        distinct_keys(s2),
    ensures
        map_of_entries(s1) == map_of_entries(s2),
{
    s1.to_multiset_ensures();
    s2.to_multiset_ensures();
    assert forall|k: Seq<u8>|
        (#[trigger] map_of_entries(s1).dom().contains(k) <==> map_of_entries(
            s2,
        ).dom().contains(k)) && (map_of_entries(s1).dom().contains(k) ==> map_of_entries(s1)[k]
        == map_of_entries(s2)[k]) by {
        if map_of_entries(s1).contains_key(k) {
            lemma_entry_carries_over(s1, s2, k);
        }
        if map_of_entries(s2).contains_key(k) {
            lemma_entry_carries_over(s2, s1, k);
        }
    }
    assert(map_of_entries(s1).dom() =~= map_of_entries(s2).dom());
    assert(map_of_entries(s1) =~= map_of_entries(s2));
}

/// A key present in the map of one history is present, with the same
/// value, in the map of any reordering of it.
proof fn lemma_entry_carries_over<V>(s1: Seq<(Seq<u8>, V)>, s2: Seq<(Seq<u8>, V)>, k: Seq<u8>)
    requires
        s1.to_multiset() == s2.to_multiset(),
        distinct_keys(s1),
        distinct_keys(s2),
        map_of_entries(s1).contains_key(k),
    ensures
        map_of_entries(s2).contains_key(k),
        map_of_entries(s2)[k] == map_of_entries(s1)[k],
{
    s1.to_multiset_ensures();
    s2.to_multiset_ensures();
    if forall|i: int| 0 <= i < s1.len() ==> (#[trigger] s1[i]).0 != k {
        lemma_never_inserted_absent(s1, k);
    }
    let i = choose|i: int| 0 <= i < s1.len() && (#[trigger] s1[i]).0 == k;
    assert(forall|j: int| i < j < s1.len() ==> s1[j].0 != s1[i].0);
    lemma_last_entry_wins(s1, i);
    assert(s1.contains(s1[i]));
    assert(s1.to_multiset().count(s1[i]) > 0);
    assert(s2.to_multiset().count(s1[i]) > 0);
    assert(s2.contains(s1[i]));
    let j = choose|j: int| 0 <= j < s2.len() && s2[j] == s1[i];
    assert(forall|l: int| j < l < s2.len() ==> s2[l].0 != s2[j].0);
    lemma_last_entry_wins(s2, j);
}

} // verus!
