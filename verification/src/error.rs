//! What can go wrong.
use crate::wal::WalError;
use vstd::prelude::*;

verus! {

#[derive(Debug, Clone, Copy, PartialEq, Eq, Structural)]
pub enum LsmError {
    /// A read reached past the end of a file.
    ReadOutOfRange,
    /// A table holds no bloom filter.
    MissingBloom,
    /// An iterator failed before and stays failed.
    IteratorFailed,
    /// A transaction was used after its commit.
    AlreadyCommitted,
    /// The state names a table that it does not hold.
    MissingTable,
    /// Two tables of one level overlap or stand in the wrong order.
    LevelDisorder,
    /// A log cannot be recovered.
    BadLog(WalError),
}

} // verus!
