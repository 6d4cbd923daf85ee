//! The on-disk file system: block caching and the disk structures.
pub mod cache;
pub mod inode;
pub mod structure;
