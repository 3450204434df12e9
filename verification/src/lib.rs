//! A log-structured merge tree over string keys and values: a write-ahead
//! log mirrors an in-memory ordered memtable, full memtables flush to
//! immutable sorted segment files found by binary search, and compaction
//! merges segments under a crash-safe rename/delete manifest. Everything
//! that decides or computes lives here, verified; the caller performs the
//! file work these functions direct.

use vstd::prelude::*;

pub mod codec;
pub mod segment;
pub mod wal;
pub mod merge;
pub mod paths;
pub mod manifest;
pub mod recovery;
pub mod engine;
pub mod keys;
pub mod memtable;
pub mod model;

verus! {

/// Size in bytes of one encoded index record: two little-endian `u64` fields.
pub const INDEX_RECORD_SIZE: usize = 16;

pub fn index_record_size() -> (r: usize)
    ensures
        r == INDEX_RECORD_SIZE,
{
    INDEX_RECORD_SIZE
}

} // verus!
