//! Layered delta storage.
pub mod config;
pub mod descent;
pub mod disk_store;
pub mod engine_laws;
pub mod file_laws;
pub mod flush_engine;
pub mod frozen_store;
pub mod heat;
pub mod laws;
pub mod mem_store;
pub mod merge;
pub mod merging;
pub mod patch_file;
pub mod patching;
pub mod sparsity;
pub mod stack;
pub mod types;
pub mod visibility;

pub use config::DeltaConfig;
pub use disk_store::{ColumnMergePlan, DeltaL2Disk, Guard, GuardKey, MergePlan};
pub use flush_engine::{
    CompactionAction, CompactionDecision, CompactionPolicy, CompactionPriority, EcoTuneSelector,
    FlushEngine, ForegroundMonitor, WorkloadProfile,
};
pub use frozen_store::DeltaL3Frozen;
pub use heat::{ColumnClass, ColumnHeatTracker, FlushPolicy};
pub use mem_store::DeltaMemStore;
pub use merge::{apply_deltas_to_batch, apply_sparse_patch, k_way_merge, DeltaMerger};
pub use patch_file::patch_row_positions;
pub use sparsity::SparsitySelector;
pub use types::{DeltaCell, DeltaCheckpointState, DeltaPatch, DeltaPatchFormat, ZoneMap};
