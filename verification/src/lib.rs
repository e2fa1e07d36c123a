//! A verified driver for the Minix 3 on-disk filesystem.
//!
//! The driver is layered the way the on-disk format is: a sector-granular
//! block device at the bottom, a byte-granular I/O shim above it, then the
//! on-disk structures (superblock, bitmaps, inode table, data zones), the
//! zone walker that turns a byte range of a file into block transfers, and
//! finally a per-device path cache that backs `open`, `create` and `delete`.

pub mod bio;
pub mod bmap;
pub mod bridge;
pub mod device;
pub mod dir;
pub mod fs;
pub mod inode;
pub mod layout;
pub mod zones;
