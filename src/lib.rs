//! Incremental, chunked, content-addressed backups.
//!
//! The library holds the logic of a backup run: splitting files into
//! fixed-size chunks, packing the chunks into size-capped bak files,
//! deduplicating against a reference index, and producing the rows of the
//! index database. Reading and writing files is left to the caller.
mod buckets;
pub mod chunking;
pub mod config;
pub mod db;
pub mod dedup;
pub mod entry;
pub mod hash;
pub mod packer;

pub use hash::StreamHasher;
