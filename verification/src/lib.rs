//! Columnar segment storage: delete and update masks, sparse primary-key
//! indexes, projections, multi-version delta stores and the layered delta
//! engine that merges them.
pub mod bitmap;
pub mod bits;
pub mod buffers;
pub mod codec;
pub mod column;
pub mod error;
pub mod forms;
pub mod ipc;
pub mod ipc_layout;
pub mod mvcc;
pub mod numeral;
pub mod ordmap;
pub mod ratio;
pub mod roaring_set;
pub mod segment;
pub mod storage;
pub mod sums;
pub mod text;
pub mod typed_arrow_records;
pub mod write;
