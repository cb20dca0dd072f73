//! Segments.
pub mod adaptive_del_mask;
pub mod analysis_laws;
pub mod del_mask;
pub mod delta_store;
pub mod encoding;
pub mod laws;
pub mod layout;
pub mod meta;
pub mod overlay;
pub mod projection;
pub mod sparse_index;
pub mod upd_mask;
