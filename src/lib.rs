//! Disk-space layer of a page-oriented storage engine: page addressing inside
//! partition files, free-space bitmaps and their per-header summary counters,
//! and partition numbering for a storage directory.

pub mod layout;
pub mod bitmap;
pub mod master_page;
pub mod error;
pub mod partition_handle;
pub mod disk_space_manager;
