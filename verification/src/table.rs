//! The hash table: a fixed, ordered row of buckets behind one map-shaped face.

use vstd::prelude::*;
use vstd::set_lib::lemma_set_disjoint_lens;
use vstd::string::StrSliceExecFns;

use crate::bucket::Bucket;
use crate::bucket::chain_contains;
use crate::bucket::chain_get;
use crate::bucket::chain_keys;
use crate::bucket::chain_value;
use crate::bucket::distinct_keys;
use crate::bucket::lemma_chain_keys_card;
use crate::bucket::lemma_chain_keys_contains;
use crate::hashing::BUCKET_SIZE;
use crate::hashing::bucket_index_of;
use crate::hashing::lemma_bucket_index_in_range;
use crate::hashing::hash_chars;

verus! {

/// A fixed-bucket-count hash table from string keys to values of type `V`,
/// resolving collisions by separate chaining.
///
/// The abstract state is the finite map `self@` from key characters to
/// values. `insert`, `remove` and `get` hash the key to one of the
/// [`BUCKET_SIZE`] buckets and scan only that bucket's chain; their
/// contracts say what each does to `self@`.
pub struct HashTable<V> {
    buckets: Vec<Bucket<V>>,
}

/// Sum of the chain lengths of the first `n` buckets.
spec fn sum_chain_lens<V>(buckets: Seq<Bucket<V>>, n: int) -> nat
    decreases n,
{
    if n <= 0 {
        0
    } else {
        sum_chain_lens(buckets, n - 1) + buckets[n - 1]@.len()
    }
}

/// Union of the key sets of the first `n` buckets.
spec fn keys_up_to<V>(buckets: Seq<Bucket<V>>, n: int) -> Set<Seq<char>>
    decreases n,
{
    if n <= 0 {
        Set::empty()
    } else {
        keys_up_to(buckets, n - 1) + chain_keys(buckets[n - 1]@)
    }
}

/// A prefix sum of chain lengths never exceeds a longer one.
proof fn lemma_sum_monotonic<V>(buckets: Seq<Bucket<V>>, i: int, j: int)
    requires
        0 <= i <= j,
    ensures
        sum_chain_lens(buckets, i) <= sum_chain_lens(buckets, j),
    decreases j,
{
    if i < j {
        lemma_sum_monotonic(buckets, i, j - 1);
    }
}

/// Swapping one bucket changes a prefix sum by that bucket's length change.
proof fn lemma_sum_update<V>(buckets: Seq<Bucket<V>>, n: int, i: int, b: Bucket<V>)
    requires
        0 <= i < buckets.len(),
        n <= buckets.len(),
    ensures
        i < n ==> sum_chain_lens(buckets.update(i, b), n) + buckets[i]@.len() == sum_chain_lens(
            buckets,
            n,
        ) + b@.len(),
        n <= i ==> sum_chain_lens(buckets.update(i, b), n) == sum_chain_lens(buckets, n),
    decreases n,
{
    if n > 0 {
        lemma_sum_update(buckets, n - 1, i, b);
    }
}

/// When every bucket's keys are distinct and hash to that bucket's index,
/// the buckets' key sets are pairwise disjoint, so the union of the first
/// `n` of them is finite and exactly as large as the chains together.
proof fn lemma_keys_up_to_card<V>(buckets: Seq<Bucket<V>>, n: int)
    requires
        0 <= n <= buckets.len(),
        forall|i: int| 0 <= i < buckets.len() ==> distinct_keys(#[trigger] buckets[i]@),
        forall|i: int, k: Seq<char>|
            0 <= i < buckets.len() && #[trigger] chain_contains(buckets[i]@, k)
                ==> bucket_index_of(k) == i,
    ensures
        keys_up_to(buckets, n).finite(),
        keys_up_to(buckets, n).len() == sum_chain_lens(buckets, n),
        forall|k: Seq<char>|
            #[trigger] keys_up_to(buckets, n).contains(k) <==> exists|i: int|
                0 <= i < n && chain_contains(#[trigger] buckets[i]@, k),
    decreases n,
{
    if n > 0 {
        lemma_keys_up_to_card(buckets, n - 1);
        let prev = keys_up_to(buckets, n - 1);
        let chain = buckets[n - 1]@;
        let ck = chain_keys(chain);
        lemma_chain_keys_card(chain);
        assert forall|k: Seq<char>| #[trigger] ck.contains(k) <==> chain_contains(chain, k) by {
            lemma_chain_keys_contains(chain, k);
        }
        assert forall|k: Seq<char>| prev.contains(k) implies !ck.contains(k) by {
            if ck.contains(k) {
                let i = choose|i: int| 0 <= i < n - 1 && chain_contains(#[trigger] buckets[i]@, k);
                assert(bucket_index_of(k) == i);
                assert(chain_contains(buckets[n - 1]@, k));
                assert(bucket_index_of(k) == n - 1);
            }
        }
        assert(prev.disjoint(ck));
        lemma_set_disjoint_lens(prev, ck);
        assert forall|k: Seq<char>|
            #[trigger] keys_up_to(buckets, n).contains(k) <==> exists|i: int|
                0 <= i < n && chain_contains(#[trigger] buckets[i]@, k) by {
            if keys_up_to(buckets, n).contains(k) {
                if ck.contains(k) {
                    assert(chain_contains(buckets[n - 1]@, k));
                } else {
                    let i = choose|i: int|
                        0 <= i < n - 1 && chain_contains(#[trigger] buckets[i]@, k);
                    assert(chain_contains(buckets[i]@, k));
                }
            }
            if exists|i: int| 0 <= i < n && chain_contains(#[trigger] buckets[i]@, k) {
                let i = choose|i: int| 0 <= i < n && chain_contains(#[trigger] buckets[i]@, k);
                if i == n - 1 {
                    assert(ck.contains(k));
                } else {
                    assert(keys_up_to(buckets, n - 1).contains(k));
                }
            }
        }
    }
}

impl<V> View for HashTable<V> {
    type V = Map<Seq<char>, V>;

    /// The table as a map: a key is present when the bucket its hash selects
    /// holds it, and maps to the value that bucket's chain pairs with it.
    closed spec fn view(&self) -> Map<Seq<char>, V> {
        Map::new(
            |k: Seq<char>| chain_contains(self.buckets@[bucket_index_of(k)]@, k),
            |k: Seq<char>| chain_value(self.buckets@[bucket_index_of(k)]@, k),
        )
    }
}

impl<V> HashTable<V> {
    /// The table's internal invariant: exactly [`BUCKET_SIZE`] buckets;
    /// within each chain all keys pairwise distinct; every key stored in the
    /// bucket its hash selects; and a total entry count that fits in
    /// `usize`. Constructors establish it and every method preserves it.
    pub closed spec fn wf(&self) -> bool {
        &&& self.buckets@.len() == BUCKET_SIZE
        &&& forall|i: int| 0 <= i < BUCKET_SIZE ==> distinct_keys(#[trigger] self.buckets@[i]@)
        &&& forall|i: int, k: Seq<char>|
            0 <= i < BUCKET_SIZE && #[trigger] chain_contains(self.buckets@[i]@, k)
                ==> bucket_index_of(k) == i
        &&& sum_chain_lens(self.buckets@, BUCKET_SIZE as int) <= usize::MAX
    }

    /// The table's entry count is the sum of its chain lengths.
    proof fn lemma_dom_card(&self)
        requires
            self.wf(),
        ensures
            self@.dom().finite(),
            self@.dom().len() == sum_chain_lens(self.buckets@, BUCKET_SIZE as int),
    {
        lemma_keys_up_to_card(self.buckets@, BUCKET_SIZE as int);
        let all = keys_up_to(self.buckets@, BUCKET_SIZE as int);
        assert forall|k: Seq<char>| #[trigger] all.contains(k) <==> self@.dom().contains(k) by {
            if all.contains(k) {
                let i = choose|i: int|
                    0 <= i < BUCKET_SIZE && chain_contains(#[trigger] self.buckets@[i]@, k);
                assert(bucket_index_of(k) == i);
            }
            if self@.dom().contains(k) {
                assert(chain_contains(self.buckets@[bucket_index_of(k)]@, k));
            }
        }
        assert(self@.dom() =~= all);
    }

    /// A table's map is always finite, and never holds more entries than
    /// `usize` can count.
    pub proof fn lemma_dom_finite(&self)
        requires
            self.wf(),
        ensures
            self@.dom().finite(),
            self@.dom().len() <= usize::MAX,
    {
        self.lemma_dom_card();
    }

    /// Bucket index of `key`: its hash reduced modulo the bucket count.
    fn hash(key: &String) -> (index: usize)
        ensures
            index < BUCKET_SIZE,
            index as int == bucket_index_of(key@),
    {
        let s: &str = key.as_str();
        let n: usize = s.unicode_len();
        let mut h: u32 = 0;
        let mut i: usize = 0;
        while i < n
            invariant
                i <= n,
                n == key@.len(),
                s@ == key@,
                h < 0x10000,
                h as nat == hash_chars(key@.subrange(0, i as int)),
            decreases n - i,
        {
            let c: char = s.get_char(i);
            proof {
                let pre = key@.subrange(0, i + 1);
                assert(pre.drop_last() =~= key@.subrange(0, i as int));
                assert(pre.last() == key@[i as int]);
            }
            h = (h * 31 + (c as u32)) % 0x10000;
            i = i + 1;
        }
        proof {
            assert(key@.subrange(0, n as int) =~= key@);
        }
        (h % (BUCKET_SIZE as u32)) as usize
    }

    /// A fresh table: exactly [`BUCKET_SIZE`] buckets, all empty, so the
    /// table's map is empty.
    pub fn new() -> (table: HashTable<V>)
        ensures
            table.wf(),
            table@ == Map::<Seq<char>, V>::empty(),
    {
        let mut buckets: Vec<Bucket<V>> = Vec::new();
        let mut i: usize = 0;
        while i < BUCKET_SIZE
            invariant
                i <= BUCKET_SIZE,
                buckets@.len() == i,
                forall|j: int| 0 <= j < i ==> (#[trigger] buckets@[j]@).len() == 0,
            decreases BUCKET_SIZE - i,
        {
            buckets.push(Bucket::new());
            i = i + 1;
        }
        let table = HashTable { buckets };
        proof {
            lemma_sum_of_empty_chains(table.buckets@, BUCKET_SIZE as int);
            assert forall|k: Seq<char>| !(#[trigger] table@.dom().contains(k)) by {
                lemma_bucket_index_in_range(k);
                assert(table.buckets@[bucket_index_of(k)]@.len() == 0);
            }
            assert(table@ =~= Map::<Seq<char>, V>::empty());
        }
        table
    }

    /// Total live entry count across all buckets: the size of the table's
    /// map.
    pub fn len(&self) -> (n: usize)
        requires
            self.wf(),
        ensures
            n == self@.dom().len(),
    {
        let mut total: usize = 0;
        let mut i: usize = 0;
        while i < BUCKET_SIZE
            invariant
                self.wf(),
                i <= BUCKET_SIZE,
                total as nat == sum_chain_lens(self.buckets@, i as int),
            decreases BUCKET_SIZE - i,
        {
            proof {
                lemma_sum_monotonic(self.buckets@, i + 1, BUCKET_SIZE as int);
            }
            total = total + self.buckets[i].len();
            i = i + 1;
        }
        proof {
            self.lemma_dom_card();
        }
        total
    }

    /// Inserts `key` with `value`: afterward the table's map is the old map
    /// with `key` bound to `value`. An equal key already present has its
    /// value overwritten; a fresh key adds one entry. The one precondition
    /// is the machine's: a fresh key needs room for one more entry.
    pub fn insert(&mut self, key: String, value: V)
        requires
            old(self).wf(),
            old(self)@.contains_key(key@) || old(self)@.dom().len() < usize::MAX,
        ensures
            final(self).wf(),
            final(self)@ == old(self)@.insert(key@, value),
    {
        proof {
            old(self).lemma_dom_card();
        }
        let index = Self::hash(&key);
        let ghost k = key@;
        let ghost old_chain = self.buckets@[index as int]@;
        let mut bucket = self.buckets.remove(index);
        bucket.insert(key, value);
        self.buckets.insert(index, bucket);
        proof {
            let ghost new_chain = self.buckets@[index as int]@;
            assert(self.buckets@ =~= old(self).buckets@.update(index as int, self.buckets@[index as int]));
            lemma_sum_update(
                old(self).buckets@,
                BUCKET_SIZE as int,
                index as int,
                self.buckets@[index as int],
            );
            if !chain_contains(old_chain, k) {
                assert(!old(self)@.contains_key(k));
                assert(new_chain.len() == old_chain.len() + 1);
            }
            assert(sum_chain_lens(self.buckets@, BUCKET_SIZE as int) <= usize::MAX);
            assert forall|i: int, k2: Seq<char>|
                0 <= i < BUCKET_SIZE && #[trigger] chain_contains(self.buckets@[i]@, k2)
                    implies bucket_index_of(k2) == i by {
                if i == index as int {
                    lemma_chain_keys_contains(new_chain, k2);
                    lemma_chain_keys_contains(old_chain, k2);
                    if k2 != k {
                        assert(chain_contains(old_chain, k2));
                    }
                }
            }
            assert(self.wf());
            assert forall|k2: Seq<char>|
                #[trigger] self@.dom().contains(k2) <==> old(self)@.insert(k, value).dom().contains(
                    k2,
                ) by {
                if k2 != k && bucket_index_of(k2) == index as int {
                    assert(chain_get(new_chain, k2) == chain_get(old_chain, k2));
                }
            }
            assert forall|k2: Seq<char>| #[trigger] self@.dom().contains(k2)
                implies self@[k2] == old(self)@.insert(k, value)[k2] by {
                if k2 == k {
                    assert(chain_get(new_chain, k) == Some(value));
                } else if bucket_index_of(k2) == index as int {
                    assert(chain_get(new_chain, k2) == chain_get(old_chain, k2));
                }
            }
            assert(self@ =~= old(self)@.insert(k, value));
        }
    }

    /// Removes `key`: afterward the table's map is the old map without
    /// `key`. When the key is absent this is a silent no-op, not an error.
    pub fn remove(&mut self, key: &String)
        requires
            old(self).wf(),
        ensures
            final(self).wf(),
            final(self)@ == old(self)@.remove(key@),
    {
        let index = Self::hash(key);
        let ghost k = key@;
        let ghost old_chain = self.buckets@[index as int]@;
        let mut bucket = self.buckets.remove(index);
        bucket.remove(key);
        self.buckets.insert(index, bucket);
        proof {
            let ghost new_chain = self.buckets@[index as int]@;
            assert(self.buckets@ =~= old(self).buckets@.update(index as int, self.buckets@[index as int]));
            lemma_sum_update(
                old(self).buckets@,
                BUCKET_SIZE as int,
                index as int,
                self.buckets@[index as int],
            );
            if chain_contains(old_chain, k) {
                assert(new_chain.len() + 1 == old_chain.len());
            } else {
                assert(new_chain == old_chain);
            }
            assert(sum_chain_lens(self.buckets@, BUCKET_SIZE as int) <= usize::MAX);
            assert forall|i: int, k2: Seq<char>|
                0 <= i < BUCKET_SIZE && #[trigger] chain_contains(self.buckets@[i]@, k2)
                    implies bucket_index_of(k2) == i by {
                if i == index as int {
                    lemma_chain_keys_contains(new_chain, k2);
                    lemma_chain_keys_contains(old_chain, k2);
                    assert(chain_contains(old_chain, k2));
                }
            }
            assert(self.wf());
            assert forall|k2: Seq<char>|
                #[trigger] self@.dom().contains(k2) <==> old(self)@.remove(k).dom().contains(
                    k2,
                ) by {
                if k2 != k && bucket_index_of(k2) == index as int {
                    assert(chain_get(new_chain, k2) == chain_get(old_chain, k2));
                }
            }
            assert forall|k2: Seq<char>| #[trigger] self@.dom().contains(k2)
                implies self@[k2] == old(self)@.remove(k)[k2] by {
                if k2 != k && bucket_index_of(k2) == index as int {
                    assert(chain_get(new_chain, k2) == chain_get(old_chain, k2));
                }
            }
            assert(self@ =~= old(self)@.remove(k));
        }
    }

    /// Looks `key` up: a borrowed reference to its value when the table's
    /// map holds the key, the absence-marker otherwise. Read-only.
    pub fn get(&self, key: &String) -> (r: Option<&V>)
        requires
            self.wf(),
        ensures
            match r {
                Some(v) => self@.contains_key(key@) && *v == self@[key@],
                None => !self@.contains_key(key@),
            },
    {
        let index = Self::hash(key);
        let r = self.buckets[index].get(key);
        proof {
            let chain = self.buckets@[index as int]@;
            assert(self@.dom().contains(key@) <==> chain_contains(chain, key@));
            if chain_contains(chain, key@) {
                assert(self@[key@] == chain_value(chain, key@));
            }
        }
        r
    }
}

/// Buckets with empty chains sum to nothing.
proof fn lemma_sum_of_empty_chains<V>(buckets: Seq<Bucket<V>>, n: int)
    requires
        forall|j: int| 0 <= j < n ==> (#[trigger] buckets[j]@).len() == 0,
    ensures
        sum_chain_lens(buckets, n) == 0,
    decreases n,
{
    if n > 0 {
        lemma_sum_of_empty_chains(buckets, n - 1);
    }
}

} // verus!
