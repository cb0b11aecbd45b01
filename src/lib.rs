//! Storage core of an embedded database: a page cache with write-back and
//! eviction, a write-ahead log with CRC framing, crash recovery, transactions
//! built on page diffs, and a per-segment page allocator.
use vstd::prelude::*;

mod buffer;
pub mod bytes;
pub mod cache;
pub mod diff;
pub mod error;
pub mod id;
pub mod meta;
pub mod recovery;
mod manager;
pub mod segment_alloc;
pub mod storage;
pub mod transaction;
pub mod wal;

verus! {

} // verus!
