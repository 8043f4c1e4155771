//! The ways in which an operation of the engine can fail.
use vstd::prelude::*;
use vstd::string::StringExecFns;
use crate::files::{decimal, push_decimal};

verus! {

/// Every failure the engine reports.
#[derive(Debug)]
pub enum Error {
    /// The bytes do not start with the magic of a tree file; holds the bytes
    /// found in its place.
    InvalidTreeFormat(Vec<u8>),
    /// The structure of a file is broken; holds the reason.
    CorruptedFile(&'static str),
    /// A block names a codec that does not exist.
    InvalidCompression(u8),
    /// A pointer expects a block of the first length and found the second.
    IncorrectBlockLength(u32, u32),
    /// A leaf entry stood where a pointer to a block was needed.
    PosLenEntryRequired,
    /// An entry carries a tag that does not exist.
    InvalidEntryTag(u8),
    /// No further entry: fewer bytes than an entry header are left.
    EndOfFile,
    /// An entry starts but the bytes end before it does.
    IncompleteEntry,
    /// A key arrived that is not above the key before it.
    OutOfOrderWrite,
    /// A block, once compressed, is too long for its length field.
    BlockTooLarge,
    /// The tree has more levels than a block header can number.
    TreeTooDeep,
    /// The serialized bloom filter is too long for its length field.
    BloomFilterTooLarge,
    /// The bloom filter could not be serialized or read back.
    BloomFilterCorrupted,
    /// Snappy could not decompress a block.
    SnappyDecompression,
    /// Snappy could not compress a block.
    SnappyCompression,
    /// LZ4 could not compress a block.
    Lz4Compression,
    /// Gzip could not compress a block.
    GzipCompression,
    /// Gzip could not decompress a block.
    GzipDecompression,
    /// LZ4 could not decompress a block.
    Lz4Decompression,
    /// A file was promoted into a level whose three slots are taken.
    LevelFull(u32),
    /// A command names a level that the database does not have.
    InvalidLevel(u32),
    /// The record of a write did not reach the log.
    LogNotWritten,
}

impl Error {
    /// What the error says, for a reader.
    pub open spec fn message(self) -> Seq<char> {
        match self {
            Error::InvalidTreeFormat(_) => "invalid tree format"@,
            Error::CorruptedFile(reason) => "corrupted file: "@ + reason@,
            Error::InvalidCompression(byte) => "invalid compression type: "@ + decimal(
                byte as nat,
            ),
            Error::IncorrectBlockLength(expected, found) => "incorrect block length, expected "@
                + decimal(expected as nat) + ", got "@ + decimal(found as nat),
            Error::PosLenEntryRequired => "expected PosLen entry"@,
            Error::InvalidEntryTag(tag) => "invalid entry tag "@ + decimal(tag as nat),
            Error::EndOfFile => "end of file reached"@,
            Error::IncompleteEntry => "incomplete entry"@,
            Error::OutOfOrderWrite => "out-of-order write"@,
            Error::BlockTooLarge => "block too large"@,
            Error::TreeTooDeep => "tree too deep"@,
            Error::BloomFilterTooLarge => "bloom filter too large"@,
            Error::BloomFilterCorrupted => "bloom filter did not serialize or deserialize"@,
            Error::SnappyDecompression => "snappy decompression error"@,
            Error::SnappyCompression => "snappy compression error"@,
            Error::Lz4Compression => "lz4 compression error"@,
            Error::GzipCompression => "gzip compression error"@,
            Error::GzipDecompression => "gzip decompression error"@,
            Error::Lz4Decompression => "lz4 decompression error"@,
            Error::LevelFull(level) => "level is full: "@ + decimal(level as nat),
            Error::InvalidLevel(level) => "invalid level number: "@ + decimal(level as nat),
            Error::LogNotWritten => "nursery log could not be written"@,
        }
    }

    /// What the error says, for a reader.
    pub fn to_string(&self) -> (r: String)
        ensures
            r@ == self.message(),
    {
        match self {
            Error::InvalidTreeFormat(_) => String::from_str("invalid tree format"),
            Error::CorruptedFile(reason) => {
                let mut text = String::from_str("corrupted file: ");
                text.append(reason);
                text
            },
            Error::InvalidCompression(byte) => {
                let mut text = String::from_str("invalid compression type: ");
                push_decimal(&mut text, *byte as u64);
                text
            },
            Error::IncorrectBlockLength(expected, found) => {
                let mut text = String::from_str("incorrect block length, expected ");
                push_decimal(&mut text, *expected as u64);
                text.append(", got ");
                push_decimal(&mut text, *found as u64);
                text
            },
            Error::PosLenEntryRequired => String::from_str("expected PosLen entry"),
            Error::InvalidEntryTag(tag) => {
                let mut text = String::from_str("invalid entry tag ");
                push_decimal(&mut text, *tag as u64);
                text
            },
            Error::EndOfFile => String::from_str("end of file reached"),
            Error::IncompleteEntry => String::from_str("incomplete entry"),
            Error::OutOfOrderWrite => String::from_str("out-of-order write"),
            Error::BlockTooLarge => String::from_str("block too large"),
            Error::TreeTooDeep => String::from_str("tree too deep"),
            Error::BloomFilterTooLarge => String::from_str("bloom filter too large"),
            Error::BloomFilterCorrupted => String::from_str(
                "bloom filter did not serialize or deserialize",
            ),
            Error::SnappyDecompression => String::from_str("snappy decompression error"),
            Error::SnappyCompression => String::from_str("snappy compression error"),
            Error::Lz4Compression => String::from_str("lz4 compression error"),
            Error::GzipCompression => String::from_str("gzip compression error"),
            Error::GzipDecompression => String::from_str("gzip decompression error"),
            Error::Lz4Decompression => String::from_str("lz4 decompression error"),
            Error::LevelFull(level) => {
                let mut text = String::from_str("level is full: ");
                push_decimal(&mut text, *level as u64);
                text
            },
            Error::InvalidLevel(level) => {
                let mut text = String::from_str("invalid level number: ");
                push_decimal(&mut text, *level as u64);
                text
            },
            Error::LogNotWritten => String::from_str("nursery log could not be written"),
        }
    }
}

} // verus!
