//! Error values shared by the archive engine and the filesystem facade.

use vstd::prelude::*;

verus! {

/// The ways in which an archive can violate the container format.
#[derive(Clone, Copy, Debug, PartialEq, Eq, Structural)]
pub enum FormatError {
    /// The first four bytes are not `PSAR`.
    InvalidMagic,
    /// The codec tag names no known codec.
    InvalidCompressionType,
    /// The header declares entry records of another size than 30 bytes.
    InvalidEntrySize,
    /// The block-width tag names no known width.
    InvalidBlockSizeType,
    /// The declared table-of-contents length ends before the entry records do.
    TocLength,
    /// The archive has no entry to hold the manifest.
    NoManifest,
    /// The manifest is not UTF-8.
    ManifestEncoding,
    /// An entry's chain of blocks runs past the end of the block-size table.
    BlockChain,
    /// The decoder rejected the block with this index in the block-size
    /// table, or ran out of input before the block was complete.
    TruncatedBlock(u64),
    /// The block with this index in the block-size table does not hold the
    /// number of bytes that its entry's length asks of it.
    BlockLength(u64),
}

/// Everything that can go wrong while opening or reading an archive.
#[derive(Clone, Copy, Debug, PartialEq, Eq, Structural)]
pub enum Error {
    /// The byte source ended before a field or a block was complete.
    Io,
    /// The archive contradicts the format.
    Format(FormatError),
    /// No such inode, or no such name in a directory.
    NotFound,
}

impl FormatError {
    /// The text that describes each way of violating the format.
    pub open spec fn message_text(self) -> Seq<char> {
        match self {
            FormatError::InvalidMagic => "invalid magic"@,
            FormatError::InvalidCompressionType => "invalid compression type"@,
            FormatError::InvalidEntrySize => "invalid entry size"@,
            FormatError::InvalidBlockSizeType => "invalid block size type"@,
            FormatError::TocLength => "table of contents shorter than its entries"@,
            FormatError::NoManifest => "no manifest entry"@,
            FormatError::ManifestEncoding => "manifest is not UTF-8"@,
            FormatError::BlockChain => "block chain runs past the block-size table"@,
            FormatError::TruncatedBlock(_) => "truncated or corrupt block"@,
            FormatError::BlockLength(_) => "block of unexpected length"@,
        }
    }

    /// A short description for diagnostics.
    pub fn message(&self) -> (s: &'static str)
        ensures
            s@ == self.message_text(),
    {
        match self {
            FormatError::InvalidMagic => "invalid magic",
            FormatError::InvalidCompressionType => "invalid compression type",
            FormatError::InvalidEntrySize => "invalid entry size",
            FormatError::InvalidBlockSizeType => "invalid block size type",
            FormatError::TocLength => "table of contents shorter than its entries",
            FormatError::NoManifest => "no manifest entry",
            FormatError::ManifestEncoding => "manifest is not UTF-8",
            FormatError::BlockChain => "block chain runs past the block-size table",
            FormatError::TruncatedBlock(_) => "truncated or corrupt block",
            FormatError::BlockLength(_) => "block of unexpected length",
        }
    }
}

} // verus!
