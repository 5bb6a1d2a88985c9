//! Candidate storage for a locality-sensitive-hashing index.
//!
//! The crate keeps one append-only pool of vectors, addressed by stable
//! integer handles, together with `L` independent hash tables ("bands").
//! Each band maps an opaque hash code to a bucket: the set of handles of
//! the vectors that were inserted under that code in that band.  Deletion
//! is purely logical: a handle is removed from one band's bucket, but the
//! vector itself stays in the pool, so handles are never invalidated.

pub mod table;
pub mod vec_store;

pub use table::{Bucket, HashCode, HashTableError, HashTables, MemoryTable, StorageModel};
pub use vec_store::{DataPoint, DataPointSlice, VecStore};
