//! A log-structured merge tree whose logic is stated in contracts and proved.
pub mod block;
pub mod bound;
pub mod codec;
pub mod compact;
pub mod error;
pub mod hashing;
pub mod iterators;
pub mod key;
pub mod lsm_iterator;
pub mod lsm_storage;
pub mod manifest;
pub mod mem_table;
pub mod mvcc;
pub mod table;
pub mod versions;
pub mod wal;
