//! An embedded log-structured merge-tree storage engine.
//!
//! Writes land in a sorted in-memory buffer (the memtable); full buffers are
//! frozen and flushed into immutable sorted tables, which background
//! compaction merges to bound read amplification. Every state transition is
//! recorded in a manifest so a crashed engine can be reopened; unflushed
//! writes are reconstructed from per-memtable write-ahead logs.

pub mod compact;
pub mod lsm_storage;
pub mod manifest;
pub mod memtable;
pub mod merge;
pub mod order;
pub mod sstable;
pub mod state;
pub mod txn;
pub mod types;

use vstd::prelude::*;

verus! {

} // verus!
