//! A user-space filesystem core: inode allocation, directory structure,
//! attribute lifecycle, chunked file storage with block-aligned
//! read/modify/write and truncation, and the ready-sentinel logic of the
//! request dispatcher.
pub mod attr;
pub mod bytes;
pub mod error;
pub mod memory;
pub mod chunk;
pub mod sentinel;
pub mod persistent;
