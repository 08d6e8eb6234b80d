//! A fixed-bucket-count hash table with separate chaining.
//!
//! A [`HashTable`] owns a fixed number of buckets ([`hashing::BUCKET_SIZE`]).
//! Each bucket holds a chain of key-value entries, most recently inserted
//! first. `insert`, `get` and `remove` hash the key to a bucket index and
//! scan that bucket's chain. The table's abstract state is a finite map from
//! key characters to values; every operation's contract is stated over that
//! map. The bucket count never changes: there is no resizing and no
//! rehashing, so an unlucky key distribution degrades lookup to a linear
//! scan of one chain, never to wrong answers.

#![allow(unused_imports)]

pub mod bucket;
pub mod hashing;
pub mod laws;
pub mod table;

pub use bucket::Bucket;
pub use table::HashTable;
