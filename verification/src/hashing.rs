//! The hash function that assigns every key to a bucket.

use vstd::prelude::*;

verus! {

/// Number of buckets in every table: fixed at construction, never changed.
pub const BUCKET_SIZE: usize = 8;

/// Hash of a key: a polynomial rolling hash over the key's characters, kept
/// below 2^16. Purely a function of the characters, so equal keys always
/// hash alike.
pub open spec fn hash_chars(k: Seq<char>) -> nat
    decreases k.len(),
{
    if k.len() == 0 {
        0
    } else {
        (hash_chars(k.drop_last()) * 31 + (k.last() as u32) as nat) % 0x10000
    }
}

/// The bucket index a key is assigned to: its hash reduced modulo the
/// bucket count. Always lies in `[0, BUCKET_SIZE)`.
pub open spec fn bucket_index_of(k: Seq<char>) -> int {
    (hash_chars(k) % (BUCKET_SIZE as nat)) as int
}

/// The bucket index is always in range.
pub proof fn lemma_bucket_index_in_range(k: Seq<char>)
    ensures
        0 <= bucket_index_of(k) < BUCKET_SIZE,
{
}

} // verus!
