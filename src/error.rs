//! Errors of the index reader.
use vstd::prelude::*;

verus! {

/// Why an index file, or a part of it, could not be read.
#[derive(Debug, Clone, Copy, PartialEq, Eq, Structural)]
pub enum IndexError {
    /// The file is smaller than the header needs; holds the file size.
    InvalidSize(u64),
    /// The header does not start with the index magic; holds what it starts with.
    InvalidMagicNumber(u32),
    /// The header names a format version other than 1 or 2.
    InvalidIndexVersion(u8),
    /// The file is too small to hold a table of contents; holds the file size.
    InvalidTocSize(u64),
    /// A checksum did not match: the stored one, then the computed one.
    InvalidChecksum(u32, u32),
    /// A frame reaches past the end of its source: the end it needs, then the size.
    InvalidBufSize(u64, u64),
    /// A postings offset table entry has a key count other than 2; holds it.
    InvalidPostingsEntry(u64),
    /// A postings list frame is not a count followed by that many ascending ids.
    InvalidPostingsList,
    /// A varint or a varint-prefixed byte string runs past the end of its frame.
    UnexpectedEnd,
    /// No symbol has the given string.
    SymbolNotFound,
    /// No symbol has the given id; holds it.
    UnknownSymbolOffset(u64),
    /// Bytes that must hold a string are not UTF-8.
    InvalidUtf8,
    /// The matcher kind cannot be evaluated yet.
    NotImplemented,
}

} // verus!
