//! The manifest: the ordered file and directory entries of a container.
use vstd::prelude::*;

verus! {

/// A reference from a file to an entry of the chunk table.
#[derive(Debug, Clone, Copy, PartialEq, Eq, Structural)]
pub struct ChunkRef {
    /// Index into the chunk table.
    pub id: u64,
    /// Uncompressed size of this chunk.
    pub u_size: u64,
}

#[derive(Debug, Clone)]
pub struct FileEntry {
    pub path: String,
    pub mode: u32,
    pub mtime: i64,
    pub u_size: u64,
    pub chunk_refs: Vec<ChunkRef>,
}

#[derive(Debug, Clone)]
pub struct DirEntry {
    pub path: String,
    pub mode: u32,
    pub mtime: i64,
}

#[derive(Debug, Clone)]
pub struct Meta {
    pub created: i64,
    pub tool: String,
}

#[derive(Debug, Clone)]
pub struct Manifest {
    pub files: Vec<FileEntry>,
    pub dirs: Vec<DirEntry>,
    pub meta: Meta,
}

} // verus!
