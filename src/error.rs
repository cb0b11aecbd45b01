use vstd::prelude::*;

use crate::cache::CacheError;
use crate::wal::WalError;

verus! {

/// Errors of the transaction and allocation layers.
#[derive(Debug, Clone, Copy, PartialEq, Eq, Structural)]
pub enum Error {
    /// The header or freelist of the segment is inconsistent.
    CorruptedSegment(u32),
    /// A transaction id or sequence number would pass its largest value.
    SizeLimitReached,
    /// The page cache or the storage under it failed.
    Cache(CacheError),
    /// The write-ahead log could not be read or appended to.
    Wal(WalError),
}

} // verus!
