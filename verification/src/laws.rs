//! Table-wide laws: what the operations' contracts add up to.
//!
//! `insert`, `remove` and `get` speak about the table's map `t@`: `insert`
//! turns it into `t@.insert(key, value)`, `remove` into `t@.remove(key)`,
//! `get` and `len` read it. The lemmas here state what those maps guarantee
//! across calls, so each law below holds of any sequence of table
//! operations.

use vstd::prelude::*;
use vstd::set::axiom_set_insert_len;
use vstd::set::axiom_set_remove_len;

use crate::table::HashTable;

verus! {

/// Round-trip: inserting `key` with `value` and then looking `key` up finds
/// it, with exactly `value`.
pub proof fn lemma_round_trip<V>(t: HashTable<V>, key: Seq<char>, value: V)
    ensures
        t@.insert(key, value).contains_key(key),
        t@.insert(key, value)[key] == value,
{
}

/// Update, not duplicate: inserting the same key twice with two values
/// leaves the entry count exactly one above the table without the key — not
/// two — and a lookup returns the most recent value.
pub proof fn lemma_update_not_duplicate<V>(t: HashTable<V>, key: Seq<char>, v1: V, v2: V)
    requires
        t.wf(),
        !t@.contains_key(key),
    ensures
        t@.insert(key, v1).insert(key, v2).dom().len() == t@.dom().len() + 1,
        t@.insert(key, v1).insert(key, v2)[key] == v2,
{
    t.lemma_dom_finite();
    assert(t@.insert(key, v1).insert(key, v2).dom() =~= t@.dom().insert(key));
    axiom_set_insert_len(t@.dom(), key);
}

/// Removal correctness: after inserting `key` and then removing it, a
/// lookup reports absence and the entry count is back down by exactly one.
pub proof fn lemma_insert_then_remove<V>(t: HashTable<V>, key: Seq<char>, value: V)
    requires
        t.wf(),
    ensures
        !t@.insert(key, value).remove(key).contains_key(key),
        t@.insert(key, value).remove(key).dom().len() + 1 == t@.insert(key, value).dom().len(),
{
    t.lemma_dom_finite();
    let m = t@.insert(key, value);
    assert(m.dom() =~= t@.dom().insert(key));
    assert(m.remove(key).dom() =~= m.dom().remove(key));
    axiom_set_insert_len(t@.dom(), key);
    axiom_set_remove_len(m.dom(), key);
}

/// Removing a key the table never held is a silent no-op: the map — entry
/// count and every other entry — is left exactly as it was.
pub proof fn lemma_remove_absent<V>(t: HashTable<V>, key: Seq<char>)
    requires
        !t@.contains_key(key),
    ensures
        t@.remove(key) == t@,
{
    assert(t@.remove(key) =~= t@);
}

/// The entry count tracks the operations: a fresh insert raises
/// `dom().len()` by one, an overwrite leaves it unchanged, removing a
/// present key lowers it by one, and removing an absent key changes
/// nothing. With `len`'s contract, the reported length therefore always
/// equals the number of entries inserted minus the number successfully
/// removed.
pub proof fn lemma_count_tracks_operations<V>(t: HashTable<V>, key: Seq<char>, value: V)
    requires
        t.wf(),
    ensures
        !t@.contains_key(key) ==> t@.insert(key, value).dom().len() == t@.dom().len() + 1,
        t@.contains_key(key) ==> t@.insert(key, value).dom().len() == t@.dom().len(),
        t@.contains_key(key) ==> t@.remove(key).dom().len() + 1 == t@.dom().len(),
        !t@.contains_key(key) ==> t@.remove(key) == t@,
{
    t.lemma_dom_finite();
    assert(t@.insert(key, value).dom() =~= t@.dom().insert(key));
    assert(t@.remove(key).dom() =~= t@.dom().remove(key));
    axiom_set_insert_len(t@.dom(), key);
    axiom_set_remove_len(t@.dom(), key);
    if !t@.contains_key(key) {
        assert(t@.remove(key) =~= t@);
    }
}

/// Collision correctness: two distinct keys stay independently retrievable
/// and independently removable, whatever bucket each key's hash selects —
/// in particular when both land in the same chain.
pub proof fn lemma_distinct_keys_independent<V>(
    t: HashTable<V>,
    k1: Seq<char>,
    k2: Seq<char>,
    v1: V,
    v2: V,
)
    requires
        k1 != k2,
    ensures
        t@.insert(k1, v1).insert(k2, v2).contains_key(k1),
        t@.insert(k1, v1).insert(k2, v2).contains_key(k2),
        t@.insert(k1, v1).insert(k2, v2)[k1] == v1,
        t@.insert(k1, v1).insert(k2, v2)[k2] == v2,
        t@.insert(k1, v1).insert(k2, v2).remove(k1).contains_key(k2),
        t@.insert(k1, v1).insert(k2, v2).remove(k1)[k2] == v2,
        !t@.insert(k1, v1).insert(k2, v2).remove(k1).contains_key(k1),
{
}

} // verus!
