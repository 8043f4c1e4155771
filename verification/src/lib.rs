//! An embedded, single-writer, ordered key-value engine: a log-structured
//! hierarchy of immutable sorted files whose capacity doubles per level.
//!
//! The library works on plain values. A file is its bytes, and every
//! operation that would touch a directory reports the file operations it
//! stands for, so that a caller can mirror them on disk. A write goes to
//! the log before anything else: the caller appends the record that
//! `HanoiDB::log_insert` or `HanoiDB::log_delete` gives, and tells
//! `HanoiDB::insert` or `HanoiDB::delete` whether that went well.
use vstd::prelude::*;

pub mod bytes;
pub mod key;
pub mod error;
pub mod entry;
pub mod compression;
pub mod bloom;
pub mod trailer;
pub mod block;
pub mod tree;
pub mod writer;
pub mod sealed;
pub mod sound;
pub mod search;
pub mod memtable;
pub mod files;
pub mod level;
pub mod merger;
pub mod nursery;
pub mod db;
pub mod scan;

pub use compression::Compression;
pub use db::{Command, HanoiDB, LevelFiles, OpenOptions, Snapshot};
pub use entry::Entry;
pub use error::Error;
pub use files::{FileName, FileOp, Prefix};

verus! {

/// Tag of a key/value entry without a timestamp.
pub const TAG_KV_DATA: u8 = 0x80;

/// Tag of a tombstone without a timestamp.
pub const TAG_DELETED: u8 = 0x81;

/// Tag of a pointer to a child block.
pub const TAG_POSLEN32: u8 = 0x82;

/// Tag reserved for transactions; never written.
pub const TAG_TRANSACT: u8 = 0x83;

/// Tag of a key/value entry with a timestamp.
pub const TAG_KV_DATA2: u8 = 0x84;

/// Tag of a tombstone with a timestamp.
pub const TAG_DELETED2: u8 = 0x85;

/// The byte that ends every entry and opens the entries of every block.
pub const TAG_END: u8 = 0xFF;

} // verus!
