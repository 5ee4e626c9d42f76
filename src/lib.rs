//! A content-addressed, deduplicating archive container: its byte formats,
//! chunking and codec policy, layout planning, readers and the overlay journal.

// Errors and byte-level building blocks.
pub mod error;
pub mod le;
pub mod varint;
pub mod hex;

// Outside primitives: digests, sealing and compression.
pub mod crypto;
pub mod codec;

// The container format.
pub mod superblock;
pub mod tail;
pub mod chunktab;
pub mod manifest;
pub mod paths;

// Writing: chunking, planning, layout and the image.
pub mod chunker;
pub mod plan;
pub mod pack;
pub mod writer;

// Reading and verifying.
pub mod reader;
pub mod soundness;

// The overlay: sidecars, index and compaction inputs.
pub mod sidecar;
pub mod index;
pub mod overlay;
