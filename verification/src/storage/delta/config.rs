//! Configuration of the delta layers.
use vstd::prelude::*;
use crate::text::text_copy;

verus! {

/// When a write to L1 reaches the log.
#[derive(Debug, Clone, Copy, PartialEq, Eq, Structural)]
pub enum SyncLevel {
    /// Every write is logged durably before it counts.
    Immediate,
    /// Writes are logged in groups, after some milliseconds or some entries.
    Batch { ms: u64, max_pending: usize },
    /// Writes are logged without waiting for stable storage.
    Async,
}

/// Configuration of the delta layers.
#[derive(Debug)]
pub struct DeltaConfig {
    /// Bytes in L1 above which it is flushed.
    pub l1_flush_threshold: usize,
    /// Patches in L2 at which it is compacted.
    pub l2_compaction_threshold: usize,
    /// When a write to L1 reaches the log.
    pub sync_level: SyncLevel,
    /// Directory of the delta files.
    pub data_dir: String,
}

impl Default for DeltaConfig {
    fn default() -> (r: Self)
        ensures
            r.l1_flush_threshold == 67_108_864,
            r.l2_compaction_threshold == 64,
            r.sync_level == (SyncLevel::Batch { ms: 100, max_pending: 1000 }),
            r.data_dir@ == "."@,
    {
        DeltaConfig {
            l1_flush_threshold: 67_108_864,
            l2_compaction_threshold: 64,
            sync_level: SyncLevel::Batch { ms: 100, max_pending: 1000 },
            data_dir: text_copy("."),
        }
    }
}

} // verus!
