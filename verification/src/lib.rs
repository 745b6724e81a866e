//! A FAT filesystem on a volume held in memory: FAT12, FAT16 and FAT32.
//!
//! The crate mounts the bytes of a volume, lists and changes directories,
//! reads and writes files, formats new volumes, and recovers files from
//! unreferenced clusters with the help of caller-supplied content
//! classifiers. Every function is verified against its contract; reading an
//! image from a device and writing it back is left to the caller.
//!
//! From the bottom up:
//!
//! - [`entry`] and [`raw`]: the value of an entry of the allocation table
//!   and its three encodings in bytes.
//! - [`chain`]: cluster chains as mathematics, and the laws of allocation
//!   and truncation.
//! - [`table`]: the allocation table with its copies.
//! - [`store`]: the data region, addressed by cluster number.
//! - [`file`]: the file stream on a cluster chain.
//! - [`name`], [`time`] and [`dir`]: short and long names, the dates and
//!   times of entries, and the slots of a directory.
//! - [`boot`]: the boot sector and the layout of a volume.
//! - [`recovery`] and [`carve`]: content classifiers and the carving engine.
//! - [`volume`]: the mounted volume that brings these together.
pub mod boot;
pub mod carve;
pub mod chain;
pub mod dir;
pub mod entry;
pub mod error;
pub mod file;
pub mod name;
pub mod raw;
pub mod recovery;
pub mod store;
pub mod table;
pub mod time;
pub mod volume;
