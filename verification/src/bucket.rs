//! A bucket: one chain of key-value entries, and the operations on it.

use vstd::prelude::*;

verus! {

/// One key-value pair of a chain.
pub struct Entry<V> {
    pub key: String,
    pub value: V,
}

impl<V> View for Entry<V> {
    type V = (Seq<char>, V);

    open spec fn view(&self) -> (Seq<char>, V) {
        (self.key@, self.value)
    }
}

/// A bucket: the chain of all entries hashed to one index, most recently
/// inserted first. The chain is held flat: the entry at position `i` owns
/// the chain's `i`-th node, the head standing at position 0.
pub struct Bucket<V> {
    entries: Vec<Entry<V>>,
}

impl<V> View for Bucket<V> {
    type V = Seq<(Seq<char>, V)>;

    closed spec fn view(&self) -> Seq<(Seq<char>, V)> {
        self.entries@.map_values(|e: Entry<V>| e@)
    }
}

/// Does the chain hold key `k`?
pub open spec fn chain_contains<V>(chain: Seq<(Seq<char>, V)>, k: Seq<char>) -> bool {
    exists|i: int| 0 <= i < chain.len() && chain[i].0 == k
}

/// A position of key `k` in the chain: meaningful when the chain holds `k`,
/// and unique when the chain's keys are distinct.
pub open spec fn chain_index<V>(chain: Seq<(Seq<char>, V)>, k: Seq<char>) -> int {
    choose|i: int| 0 <= i < chain.len() && chain[i].0 == k
}

/// The value the chain pairs with key `k` (meaningful when the chain holds `k`).
pub open spec fn chain_value<V>(chain: Seq<(Seq<char>, V)>, k: Seq<char>) -> V {
    chain[chain_index(chain, k)].1
}

/// What a scan of the chain returns for key `k`: the first matching entry's
/// value, or nothing.
pub open spec fn chain_get<V>(chain: Seq<(Seq<char>, V)>, k: Seq<char>) -> Option<V> {
    if chain_contains(chain, k) {
        Some(chain_value(chain, k))
    } else {
        None
    }
}

/// All keys of the chain are pairwise distinct.
pub open spec fn distinct_keys<V>(chain: Seq<(Seq<char>, V)>) -> bool {
    forall|i: int, j: int| 0 <= i < j < chain.len() ==> (#[trigger] chain[i].0) != (#[trigger] chain[j].0)
}

/// The set of keys the chain holds.
pub open spec fn chain_keys<V>(chain: Seq<(Seq<char>, V)>) -> Set<Seq<char>> {
    chain.map_values(|e: (Seq<char>, V)| e.0).to_set()
}

/// In a chain with distinct keys, an entry holding key `k` is the chain's
/// one position for `k`.
pub proof fn lemma_chain_index_unique<V>(chain: Seq<(Seq<char>, V)>, k: Seq<char>, i: int)
    requires
        distinct_keys(chain),
        0 <= i < chain.len(),
        chain[i].0 == k,
    ensures
        chain_contains(chain, k),
        chain_index(chain, k) == i,
        chain_value(chain, k) == chain[i].1,
{
    assert(chain_contains(chain, k));
    let w = chain_index(chain, k);
    assert(0 <= w < chain.len() && chain[w].0 == k);
    if w != i {
        assert(chain[w].0 != chain[i].0);
        assert(false);
    }
}

/// A key is in the chain's key set exactly when the chain holds it.
pub proof fn lemma_chain_keys_contains<V>(chain: Seq<(Seq<char>, V)>, k: Seq<char>)
    ensures
        chain_keys(chain).contains(k) <==> chain_contains(chain, k),
{
    let mapped = chain.map_values(|e: (Seq<char>, V)| e.0);
    if chain_contains(chain, k) {
        let i = chain_index(chain, k);
        assert(mapped[i] == k);
        assert(mapped.contains(k));
    }
    if mapped.contains(k) {
        let i = choose|i: int| 0 <= i < mapped.len() && mapped[i] == k;
        assert(chain[i].0 == k);
    }
}

/// A chain with distinct keys holds exactly as many keys as entries.
pub proof fn lemma_chain_keys_card<V>(chain: Seq<(Seq<char>, V)>)
    requires
        distinct_keys(chain),
    ensures
        chain_keys(chain).finite(),
        chain_keys(chain).len() == chain.len(),
{
    let mapped = chain.map_values(|e: (Seq<char>, V)| e.0);
    assert forall|i: int, j: int| 0 <= i < mapped.len() && 0 <= j < mapped.len() && i != j
        implies mapped[i] != mapped[j] by {
        assert(chain[i].0 != chain[j].0);
    }
    assert(mapped.no_duplicates());
    mapped.unique_seq_to_set();
}

/// Overwriting the value at the one position holding key `k` changes what a
/// scan returns for `k`, and nothing else: every other key keeps its value,
/// the key set and the length stay as they were.
pub proof fn lemma_chain_update<V>(chain: Seq<(Seq<char>, V)>, i: int, k: Seq<char>, v: V)
    requires
        distinct_keys(chain),
        0 <= i < chain.len(),
        chain[i].0 == k,
    ensures
        distinct_keys(chain.update(i, (k, v))),
        chain_get(chain.update(i, (k, v)), k) == Some(v),
        forall|k2: Seq<char>|
            k2 != k ==> chain_get(chain.update(i, (k, v)), k2) == chain_get(chain, k2),
        chain_keys(chain.update(i, (k, v))) == chain_keys(chain).insert(k),
        chain.update(i, (k, v)).len() == chain.len(),
{
    let new = chain.update(i, (k, v));
    assert forall|x: int| 0 <= x < new.len() implies (#[trigger] new[x]).0 == chain[x].0 by {}
    assert forall|a: int, b: int| 0 <= a < b < new.len() implies (#[trigger] new[a].0)
        != (#[trigger] new[b].0) by {
        assert(chain[a].0 != chain[b].0);
    }
    lemma_chain_index_unique(new, k, i);
    assert forall|k2: Seq<char>| k2 != k implies chain_get(new, k2) == chain_get(chain, k2) by {
        if chain_contains(chain, k2) {
            let j = chain_index(chain, k2);
            lemma_chain_index_unique(chain, k2, j);
            assert(new[j].0 == k2);
            lemma_chain_index_unique(new, k2, j);
            assert(j != i);
        } else if chain_contains(new, k2) {
            let j = chain_index(new, k2);
            assert(chain[j].0 == k2);
            assert(false);
        }
    }
    assert(new.map_values(|e: (Seq<char>, V)| e.0) =~= chain.map_values(|e: (Seq<char>, V)| e.0));
    lemma_chain_keys_contains(chain, k);
    assert(chain_keys(chain).insert(k) =~= chain_keys(chain));
}

/// Linking a fresh key's entry in as the new head makes that key scannable
/// with its value, leaves every other key's result untouched, adds the key
/// to the key set, and grows the chain by one.
pub proof fn lemma_chain_prepend<V>(chain: Seq<(Seq<char>, V)>, k: Seq<char>, v: V)
    requires
        distinct_keys(chain),
        !chain_contains(chain, k),
    ensures
        distinct_keys(seq![(k, v)] + chain),
        chain_get(seq![(k, v)] + chain, k) == Some(v),
        forall|k2: Seq<char>|
            k2 != k ==> chain_get(seq![(k, v)] + chain, k2) == chain_get(chain, k2),
        chain_keys(seq![(k, v)] + chain) == chain_keys(chain).insert(k),
        (seq![(k, v)] + chain).len() == chain.len() + 1,
{
    let new = seq![(k, v)] + chain;
    assert(new[0] == (k, v));
    assert forall|x: int| 1 <= x < new.len() implies (#[trigger] new[x]) == chain[x - 1] by {}
    assert forall|a: int, b: int| 0 <= a < b < new.len() implies (#[trigger] new[a].0)
        != (#[trigger] new[b].0) by {
        if a == 0 {
            if new[b].0 == k {
                assert(chain[b - 1].0 == k);
                assert(chain_contains(chain, k));
            }
        } else {
            assert(chain[a - 1].0 != chain[b - 1].0);
        }
    }
    lemma_chain_index_unique(new, k, 0);
    assert forall|k2: Seq<char>| k2 != k implies chain_get(new, k2) == chain_get(chain, k2) by {
        if chain_contains(chain, k2) {
            let j = chain_index(chain, k2);
            lemma_chain_index_unique(chain, k2, j);
            assert(new[j + 1].0 == k2);
            lemma_chain_index_unique(new, k2, j + 1);
        } else if chain_contains(new, k2) {
            let j = chain_index(new, k2);
            assert(j != 0);
            assert(chain[j - 1].0 == k2);
            assert(chain_contains(chain, k2));
            assert(false);
        }
    }
    assert forall|x: Seq<char>|
        chain_keys(new).contains(x) <==> chain_keys(chain).insert(k).contains(x) by {
        lemma_chain_keys_contains(new, x);
        lemma_chain_keys_contains(chain, x);
        if x != k {
            if chain_contains(chain, x) {
                let j = chain_index(chain, x);
                assert(new[j + 1].0 == x);
                assert(chain_contains(new, x));
            }
            if chain_contains(new, x) {
                let j = chain_index(new, x);
                assert(j != 0);
                assert(chain[j - 1].0 == x);
                assert(chain_contains(chain, x));
            }
        }
    }
    assert(chain_keys(new) =~= chain_keys(chain).insert(k));
}

/// Splicing out the one entry holding key `k` makes a scan for `k` come up
/// empty, leaves every other key's result untouched, drops the key from the
/// key set, and shrinks the chain by one.
pub proof fn lemma_chain_remove<V>(chain: Seq<(Seq<char>, V)>, i: int, k: Seq<char>)
    requires
        distinct_keys(chain),
        0 <= i < chain.len(),
        chain[i].0 == k,
    ensures
        distinct_keys(chain.remove(i)),
        !chain_contains(chain.remove(i), k),
        forall|k2: Seq<char>| k2 != k ==> chain_get(chain.remove(i), k2) == chain_get(chain, k2),
        chain_keys(chain.remove(i)) == chain_keys(chain).remove(k),
        chain.remove(i).len() == chain.len() - 1,
{
    let new = chain.remove(i);
    assert forall|x: int| 0 <= x < new.len() implies (#[trigger] new[x]) == (if x < i {
        chain[x]
    } else {
        chain[x + 1]
    }) by {}
    assert forall|a: int, b: int| 0 <= a < b < new.len() implies (#[trigger] new[a].0)
        != (#[trigger] new[b].0) by {
        let a2: int = if a < i { a } else { a + 1 };
        let b2: int = if b < i { b } else { b + 1 };
        assert(chain[a2].0 != chain[b2].0);
    }
    assert forall|x: int| 0 <= x < new.len() implies (#[trigger] new[x].0) != k by {
        let x2: int = if x < i { x } else { x + 1 };
        if chain[x2].0 == k {
            assert(x2 != i);
            if x2 < i {
                assert(chain[x2].0 != chain[i].0);
            } else {
                assert(chain[i].0 != chain[x2].0);
            }
            assert(false);
        }
    }
    assert(!chain_contains(new, k));
    assert forall|k2: Seq<char>| k2 != k implies chain_get(new, k2) == chain_get(chain, k2) by {
        if chain_contains(chain, k2) {
            let j = chain_index(chain, k2);
            lemma_chain_index_unique(chain, k2, j);
            assert(j != i);
            let j2: int = if j < i { j } else { j - 1 };
            assert(new[j2].0 == k2);
            lemma_chain_index_unique(new, k2, j2);
        } else if chain_contains(new, k2) {
            let j = chain_index(new, k2);
            let j2: int = if j < i { j } else { j + 1 };
            assert(chain[j2].0 == k2);
            assert(chain_contains(chain, k2));
            assert(false);
        }
    }
    assert forall|x: Seq<char>|
        chain_keys(new).contains(x) <==> chain_keys(chain).remove(k).contains(x) by {
        lemma_chain_keys_contains(new, x);
        lemma_chain_keys_contains(chain, x);
        if chain_contains(new, x) {
            let j = chain_index(new, x);
            let j2: int = if j < i { j } else { j + 1 };
            assert(chain[j2].0 == x);
            assert(chain_contains(chain, x));
        }
        if x != k && chain_contains(chain, x) {
            let j = chain_index(chain, x);
            assert(j != i);
            let j2: int = if j < i { j } else { j - 1 };
            assert(new[j2].0 == x);
            assert(chain_contains(new, x));
        }
    }
    assert(chain_keys(new) =~= chain_keys(chain).remove(k));
}

impl<V> Bucket<V> {
    /// A fresh, empty bucket: no entries in its chain.
    pub fn new() -> (b: Bucket<V>)
        ensures
            b@ == Seq::<(Seq<char>, V)>::empty(),
    {
        let b = Bucket { entries: Vec::new() };
        proof {
            assert(b@ =~= Seq::<(Seq<char>, V)>::empty());
        }
        b
    }

    /// Count of live entries in the chain.
    pub fn len(&self) -> (n: usize)
        ensures
            n == self@.len(),
    {
        self.entries.len()
    }

    /// Scans the chain for `key`. When an entry already holds an equal key,
    /// its value is overwritten in place and the chain's shape is untouched;
    /// otherwise a fresh entry is linked in as the new head and the chain
    /// grows by one.
    pub fn insert(&mut self, key: String, value: V)
        requires
            distinct_keys(old(self)@),
        ensures
            distinct_keys(final(self)@),
            chain_get(final(self)@, key@) == Some(value),
            forall|k: Seq<char>|
                k != key@ ==> chain_get(final(self)@, k) == chain_get(old(self)@, k),
            chain_keys(final(self)@) == chain_keys(old(self)@).insert(key@),
            chain_contains(old(self)@, key@) ==> final(self)@ == old(self)@.update(
                chain_index(old(self)@, key@),
                (key@, value),
            ),
            !chain_contains(old(self)@, key@) ==> final(self)@ == seq![(key@, value)] + old(
                self,
            )@,
    {
        let n: usize = self.entries.len();
        let mut i: usize = 0;
        while i < n
            invariant
                i <= n,
                n == self.entries@.len(),
                self.entries@ == old(self).entries@,
                distinct_keys(self@),
                forall|j: int| 0 <= j < i ==> self@[j].0 != key@,
            decreases n - i,
        {
            if self.entries[i].key == key {
                proof {
                    assert(self@[i as int].0 == key@);
                    lemma_chain_index_unique(self@, key@, i as int);
                }
                let mut e = self.entries.remove(i);
                e.value = value;
                self.entries.insert(i, e);
                proof {
                    assert(self@ =~= old(self)@.update(i as int, (key@, value)));
                    lemma_chain_update(old(self)@, i as int, key@, value);
                }
                return;
            }
            i = i + 1;
        }
        proof {
            assert(!chain_contains(self@, key@));
        }
        self.entries.insert(0, Entry { key, value });
        proof {
            assert(self@ =~= seq![(key@, value)] + old(self)@);
            lemma_chain_prepend(old(self)@, key@, value);
        }
    }

    /// Scans the chain for `key`. When an entry holds an equal key it is
    /// unlinked, its successor spliced into its place, and the chain shrinks
    /// by one; when no entry matches, the chain is left exactly as it was.
    pub fn remove(&mut self, key: &String)
        requires
            distinct_keys(old(self)@),
        ensures
            distinct_keys(final(self)@),
            !chain_contains(final(self)@, key@),
            forall|k: Seq<char>|
                k != key@ ==> chain_get(final(self)@, k) == chain_get(old(self)@, k),
            chain_keys(final(self)@) == chain_keys(old(self)@).remove(key@),
            chain_contains(old(self)@, key@) ==> final(self)@ == old(self)@.remove(
                chain_index(old(self)@, key@),
            ),
            !chain_contains(old(self)@, key@) ==> final(self)@ == old(self)@,
    {
        let n: usize = self.entries.len();
        let mut i: usize = 0;
        while i < n
            invariant
                i <= n,
                n == self.entries@.len(),
                self.entries@ == old(self).entries@,
                distinct_keys(self@),
                forall|j: int| 0 <= j < i ==> self@[j].0 != key@,
            decreases n - i,
        {
            if self.entries[i].key == *key {
                proof {
                    assert(self@[i as int].0 == key@);
                    lemma_chain_index_unique(self@, key@, i as int);
                }
                let _ = self.entries.remove(i);
                proof {
                    assert(self@ =~= old(self)@.remove(i as int));
                    lemma_chain_remove(old(self)@, i as int, key@);
                }
                return;
            }
            i = i + 1;
        }
        proof {
            assert(!chain_contains(self@, key@));
            lemma_chain_keys_contains(self@, key@);
            assert(chain_keys(self@) =~= chain_keys(old(self)@).remove(key@));
        }
    }

    /// Scans the chain for `key` and returns the first matching entry's
    /// value, or nothing when no entry matches.
    pub fn get(&self, key: &String) -> (r: Option<&V>)
        requires
            distinct_keys(self@),
        ensures
            match r {
                Some(v) => chain_get(self@, key@) == Some(*v),
                None => chain_get(self@, key@) is None,
            },
    {
        let n: usize = self.entries.len();
        let mut i: usize = 0;
        while i < n
            invariant
                i <= n,
                n == self.entries@.len(),
                distinct_keys(self@),
                forall|j: int| 0 <= j < i ==> self@[j].0 != key@,
            decreases n - i,
        {
            if self.entries[i].key == *key {
                proof {
                    assert(self@[i as int].0 == key@);
                    lemma_chain_index_unique(self@, key@, i as int);
                }
                return Some(&self.entries[i].value);
            }
            i = i + 1;
        }
        None
    }
}

} // verus!
