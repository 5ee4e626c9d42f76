//! Errors of the archive engine.
use vstd::prelude::*;

verus! {

/// A broken invariant of one of the on-disk formats.
#[derive(Debug, Clone, Copy, PartialEq, Eq, Structural)]
pub enum FormatError {
    /// A magic number does not match.
    BadMagic,
    /// Fewer bytes than a structure needs.
    ShortRead,
    /// The superblock's offsets are out of order or past the end of the data.
    BadLayout,
    /// The chunk table's plaintext is not `chunk_count * ENTRY_SIZE` bytes.
    TableSizeMismatch,
    /// A chunk's byte range leaves the data region.
    ChunkOutOfBounds,
    /// A chunk reference names no entry of the chunk table.
    UnknownChunk,
    /// A codec tag that no codec has.
    UnknownCodec,
    /// A codec could not decode a chunk.
    CorruptChunk,
    /// AEAD authentication failed.
    AuthFailed,
    /// A file's content does not have the recorded size.
    SizeMismatch,
    /// A path is absolute or climbs out of the destination.
    UnsafePath,
    /// The archive or sidecar is sealed and no key was given.
    KeyRequired,
    /// A hex string is malformed or has the wrong length.
    BadHex,
    /// A varint runs over ten bytes or over 64 bits.
    BadVarint,
    /// The tail summary does not match the content.
    VerifyMismatch,
    /// The tail summary is missing.
    NoTail,
    /// No entry with that path.
    NotFound,
    /// The overlay entry holds chunks of the base container, which the overlay cannot read.
    BaseNotWired,
    /// A size or offset does not fit in 64 bits.
    Overflow,
}

/// An error of the engine: an I/O failure reported by the caller's side, or a format error.
#[derive(Debug, Clone)]
pub enum ArxError {
    Io(String),
    Format(FormatError),
}

impl ArxError {
    /// A short human-readable description.
    pub fn message(&self) -> (r: String) {
        match self {
            ArxError::Io(m) => m.clone(),
            ArxError::Format(k) => k.message(),
        }
    }
}

impl FormatError {
    /// A short human-readable description.
    pub fn message(&self) -> (r: String) {
        let s = match self {
            FormatError::BadMagic => "bad magic",
            FormatError::ShortRead => "short read",
            FormatError::BadLayout => "superblock layout out of bounds",
            FormatError::TableSizeMismatch => "chunk table size mismatch",
            FormatError::ChunkOutOfBounds => "chunk out of bounds",
            FormatError::UnknownChunk => "unknown chunk id",
            FormatError::UnknownCodec => "unknown codec id",
            FormatError::CorruptChunk => "corrupt chunk",
            FormatError::AuthFailed => "aead authentication failed",
            FormatError::SizeMismatch => "extracted size mismatch",
            FormatError::UnsafePath => "unsafe path",
            FormatError::KeyRequired => "archive is encrypted; key required",
            FormatError::BadHex => "invalid hex",
            FormatError::BadVarint => "varint too long",
            FormatError::VerifyMismatch => "verify mismatch (tail)",
            FormatError::NoTail => "tail summary missing",
            FormatError::NotFound => "path not found",
            FormatError::BaseNotWired => "overlay reader for Base chunks not wired yet",
            FormatError::Overflow => "size overflow",
        };
        s.to_string()
    }
}

} // verus!
