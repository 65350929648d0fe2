//! Versions and transactions.
pub mod txn;
pub mod watermark;
