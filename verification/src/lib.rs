//! A read-only FAT32 reader over an in-memory disk image, and the bookkeeping
//! of a slab allocator over a page-bump heap.

pub mod allocator;
pub mod bytes;
pub mod file_system;
pub mod text;
