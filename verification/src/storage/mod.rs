//! Storage engine.
pub mod delta;
pub mod fastlanes;
pub mod file_manager;
pub mod format_laws;
pub mod granule;
pub mod granule_bloom_filter;
pub mod granule_zone_map_mmap;
pub mod laws;
pub mod mmap_file;
pub mod parquet_format;
pub mod vortex;
pub mod vortex_alp_ext;
