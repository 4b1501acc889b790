//! The error values of both pipelines.

use vstd::prelude::*;

verus! {

/// Why a metadata file could not be parsed.
#[derive(Debug, Clone, Copy, PartialEq, Eq, Structural)]
pub enum MetadataFault {
    /// The bytes end before a length, a text or the part count is complete.
    Truncated,
    /// A length-prefixed text is not valid UTF-8.
    InvalidUtf8,
    /// The identifier block does not hold exactly the declared number of
    /// 16-byte identifiers.
    CountMismatch,
}

/// What can go wrong while a file is reassembled.
#[derive(Debug, Clone, Copy, PartialEq, Eq, Structural)]
pub enum DecodeErrors {
    /// A file could not be opened, read, created or written.
    IOFailure,
    /// The metadata file is not a well-formed descriptor.
    MalformedMetadata(MetadataFault),
    /// The part file with this sequence number is absent.
    MissingPart(u64),
    /// The part file with this sequence number is shorter than an
    /// identifier, or carries another identifier than the recorded one.
    CorruptPart(u64),
    /// The path of the metadata file does not name a regular file.
    InvalidPath,
}

/// What can go wrong while a file is split.
#[derive(Debug, Clone, Copy, PartialEq, Eq, Structural)]
pub enum EncodeErrors {
    /// A file could not be opened, read, created or written.
    IOFailure,
    /// A text of the descriptor is longer than its one-byte length prefix
    /// can say, or the number of parts does not fit in 64 bits.
    MalformedMetadata,
    /// The source path does not name a regular file, or no file name and
    /// extension can be taken from it.
    InvalidPath,
}

} // verus!
