//! Packing: from the files and directories of an input tree to a manifest and a chunk plan.
use vstd::prelude::*;
use crate::chunker::chunk_lens;
use crate::crypto::TAG_LEN;
use crate::manifest::{ChunkRef, DirEntry, FileEntry, Manifest, Meta};
use crate::plan::{chunk_ok, dedup, dedup_ok, offset_of, plan_file, DedupPlan, NewChunk};
use crate::writer::PackOptions;

verus! {

/// A regular file of the input tree, with its path relative to the root.
#[derive(Debug, Clone)]
pub struct InputFile {
    pub path: String,
    pub mode: u32,
    pub mtime: i64,
    pub data: Vec<u8>,
}

/// A directory of the input tree.
#[derive(Debug, Clone)]
pub struct InputDir {
    pub path: String,
    pub mode: u32,
    pub mtime: i64,
}

/// The manifest and chunk plan of a container.
pub struct PackPlan {
    pub manifest: Manifest,
    pub chunks: DedupPlan,
    /// The per-file chunk records the plan was made from.
    pub planned: Ghost<Seq<Vec<NewChunk>>>,
}

/// A timestamp as recorded: zero in deterministic mode.
pub open spec fn recorded_time(t: i64, deterministic: bool) -> i64 {
    if deterministic {
        0
    } else {
        t
    }
}

/// What `plan_pack` guarantees: one manifest entry per input, in input order, with the recorded
/// metadata; every file's chunks are its content-defined chunks, planned under the codec policy
/// and deduplicated into one table.
pub open spec fn pack_plan_ok(files: Seq<InputFile>, dirs: Seq<InputDir>, created: i64, opts: PackOptions, r: PackPlan) -> bool {
    let planned = r.planned@;
    let m = r.manifest;
    &&& m.files@.len() == files.len()
    &&& m.dirs@.len() == dirs.len()
    &&& planned.len() == files.len()
    &&& m.meta.created == recorded_time(created, opts.deterministic)
    &&& m.meta.tool@ == "arx-core/chunked-alpha"@
    &&& forall|i: int, j: int|
        0 <= i < j < m.files@.len() ==> bytes_lt(path_bytes((#[trigger] m.files@[i]).path), path_bytes((#[trigger] m.files@[j]).path))
    &&& forall|i: int, j: int|
        0 <= i < j < m.dirs@.len() ==> bytes_lt(path_bytes((#[trigger] m.dirs@[i]).path), path_bytes((#[trigger] m.dirs@[j]).path))
    &&& forall|i: int|
        0 <= i < files.len() ==> {
            let fe = #[trigger] m.files@[i];
            let inp = files[i];
            &&& fe.path@ == inp.path@
            &&& fe.mode == inp.mode
            &&& fe.mtime == recorded_time(inp.mtime, opts.deterministic)
            &&& fe.u_size == inp.data@.len()
            &&& fe.chunk_refs@ == r.chunks.refs@[i]@
            &&& planned[i]@.len() == chunk_lens(inp.data@).len()
            &&& forall|k: int|
                0 <= k < planned[i]@.len() ==> chunk_ok(
                    inp.data@,
                    offset_of(chunk_lens(inp.data@), k),
                    chunk_lens(inp.data@)[k],
                    #[trigger] planned[i]@[k],
                    opts.min_gain_ppm,
                )
        }
    &&& forall|i: int|
        0 <= i < dirs.len() ==> {
            let de = #[trigger] m.dirs@[i];
            &&& de.path@ == dirs[i].path@
            &&& de.mode == dirs[i].mode
            &&& de.mtime == recorded_time(dirs[i].mtime, opts.deterministic)
        }
    &&& dedup_ok(planned, opts.aead_key.is_some(), r.chunks)
    &&& crate::writer::plan_sized(r.chunks, opts.aead_key.is_some())
    &&& forall|f: int, k: int|
        0 <= f < planned.len() && 0 <= k < planned[f]@.len() ==> (#[trigger] planned[f]@[k]).payload@.len()
            <= crate::chunker::MAX_CHUNK
}

fn copy_refs(v: &Vec<ChunkRef>) -> (r: Vec<ChunkRef>)
    ensures
        r@ == v@,
{
    let mut out: Vec<ChunkRef> = Vec::new();
    let mut i: usize = 0;
    while i < v.len()
        invariant
            i <= v@.len(),
            out@ == v@.subrange(0, i as int),
        decreases v@.len() - i,
    {
        out.push(v[i]);
        assert(out@ =~= v@.subrange(0, i + 1));
        i = i + 1;
    }
    assert(v@.subrange(0, v@.len() as int) =~= v@);
    out
}

/// `a` comes strictly before `b` in byte order.
pub open spec fn bytes_lt(a: Seq<u8>, b: Seq<u8>) -> bool {
    exists|i: int|
        0 <= i <= a.len() && i <= b.len() && #[trigger] a.subrange(0, i) == b.subrange(0, i) && ((i == a.len()
            && i < b.len()) || (i < a.len() && i < b.len() && a[i] < b[i]))
}

pub open spec fn path_bytes(s: String) -> Seq<u8> {
    vstd::utf8::encode_utf8(s@)
}

/// The files and the directories each come strictly sorted by path.
pub open spec fn inputs_sorted(files: Seq<InputFile>, dirs: Seq<InputDir>) -> bool {
    &&& forall|i: int, j: int|
        0 <= i < j < files.len() ==> bytes_lt(path_bytes((#[trigger] files[i]).path), path_bytes((#[trigger] files[j]).path))
    &&& forall|i: int, j: int|
        0 <= i < j < dirs.len() ==> bytes_lt(path_bytes((#[trigger] dirs[i]).path), path_bytes((#[trigger] dirs[j]).path))
}

/// Whether `a` comes strictly before `b` in byte order.
pub fn bytes_before(a: &[u8], b: &[u8]) -> (r: bool)
    ensures
        r == bytes_lt(a@, b@),
{
    let mut i: usize = 0;
    while i < a.len() && i < b.len() && a[i] == b[i]
        invariant
            i <= a@.len(),
            i <= b@.len(),
            a@.subrange(0, i as int) == b@.subrange(0, i as int),
        decreases a@.len() - i,
    {
        assert(a@.subrange(0, i + 1) =~= a@.subrange(0, i as int).push(a@[i as int]));
        assert(b@.subrange(0, i + 1) =~= b@.subrange(0, i as int).push(b@[i as int]));
        i = i + 1;
    }
    let r = (i == a.len() && i < b.len()) || (i < a.len() && i < b.len() && a[i] < b[i]);
    proof {
        if !r {
            assert forall|k: int|
                0 <= k <= a@.len() && k <= b@.len() && #[trigger] a@.subrange(0, k) == b@.subrange(0, k) implies !((k
                == a@.len() && k < b@.len()) || (k < a@.len() && k < b@.len() && a@[k] < b@[k])) by {
                if k < i {
                    assert(a@[k] == a@.subrange(0, i as int)[k]);
                    assert(b@[k] == b@.subrange(0, i as int)[k]);
                } else if k > i {
                    assert(a@.subrange(0, k)[i as int] == b@.subrange(0, k)[i as int]);
                }
            }
        }
    }
    r
}

/// Whether the inputs come strictly sorted by path, as `plan_pack` needs them.
pub fn sorted_by_path(files: &Vec<InputFile>, dirs: &Vec<InputDir>) -> (r: bool)
    ensures
        r == inputs_sorted(files@, dirs@),
{
    let mut i: usize = 1;
    while i < files.len()
        invariant
            1 <= i,
            forall|a: int, b: int|
                0 <= a < b < i && b < files@.len() ==> bytes_lt(path_bytes((#[trigger] files@[a]).path), path_bytes((#[trigger] files@[b]).path)),
        decreases files@.len() - i,
    {
        if !bytes_before(files[i - 1].path.as_str().as_bytes(), files[i].path.as_str().as_bytes()) {
            return false;
        }
        proof {
            assert forall|a: int, b: int|
                0 <= a < b < i + 1 && b < files@.len() implies bytes_lt(path_bytes((#[trigger] files@[a]).path), path_bytes((#[trigger] files@[b]).path)) by {
                if b == i && a < i - 1 {
                    lemma_bytes_lt_trans(path_bytes(files@[a].path), path_bytes(files@[i - 1].path), path_bytes(files@[b].path));
                }
            }
        }
        i = i + 1;
    }
    let mut d: usize = 1;
    while d < dirs.len()
        invariant
            1 <= d,
            forall|a: int, b: int|
                0 <= a < b < files@.len() ==> bytes_lt(path_bytes((#[trigger] files@[a]).path), path_bytes((#[trigger] files@[b]).path)),
            forall|a: int, b: int|
                0 <= a < b < d && b < dirs@.len() ==> bytes_lt(path_bytes((#[trigger] dirs@[a]).path), path_bytes((#[trigger] dirs@[b]).path)),
        decreases dirs@.len() - d,
    {
        if !bytes_before(dirs[d - 1].path.as_str().as_bytes(), dirs[d].path.as_str().as_bytes()) {
            return false;
        }
        proof {
            assert forall|a: int, b: int|
                0 <= a < b < d + 1 && b < dirs@.len() implies bytes_lt(path_bytes((#[trigger] dirs@[a]).path), path_bytes((#[trigger] dirs@[b]).path)) by {
                if b == d && a < d - 1 {
                    lemma_bytes_lt_trans(path_bytes(dirs@[a].path), path_bytes(dirs@[d - 1].path), path_bytes(dirs@[b].path));
                }
            }
        }
        d = d + 1;
    }
    true
}

proof fn lemma_bytes_lt_trans(a: Seq<u8>, b: Seq<u8>, c: Seq<u8>)
    requires
        bytes_lt(a, b),
        bytes_lt(b, c),
    ensures
        bytes_lt(a, c),
{
    let i = choose|i: int|
        0 <= i <= a.len() && i <= b.len() && #[trigger] a.subrange(0, i) == b.subrange(0, i) && ((i == a.len()
            && i < b.len()) || (i < a.len() && i < b.len() && a[i] < b[i]));
    let j = choose|j: int|
        0 <= j <= b.len() && j <= c.len() && #[trigger] b.subrange(0, j) == c.subrange(0, j) && ((j == b.len()
            && j < c.len()) || (j < b.len() && j < c.len() && b[j] < c[j]));
    let k = if i < j { i } else { j };
    assert(a.subrange(0, k) =~= c.subrange(0, k)) by {
        assert forall|t: int| 0 <= t < k implies a[t] == c[t] by {
            assert(a.subrange(0, i)[t] == b.subrange(0, i)[t]);
            assert(b.subrange(0, j)[t] == c.subrange(0, j)[t]);
        }
    }
    if i < j {
        assert(b[i] == b.subrange(0, j)[i] && c[i] == c.subrange(0, j)[i]);
    } else if j < i {
        assert(a[j] == a.subrange(0, i)[j] && b[j] == b.subrange(0, i)[j]);
    }
    assert(a.subrange(0, k) == c.subrange(0, k));
}

/// Plans a container for the given files and directories, which come sorted by path.
/// Deterministic mode zeroes every timestamp.
pub fn plan_pack(files: &Vec<InputFile>, dirs: &Vec<InputDir>, created: i64, opts: &PackOptions) -> (r: PackPlan)
    requires
        inputs_sorted(files@, dirs@),
    ensures
        pack_plan_ok(files@, dirs@, created, *opts, r),
{
    let mut planned: Vec<Vec<NewChunk>> = Vec::new();
    let mut i: usize = 0;
    while i < files.len()
        invariant
            i <= files@.len(),
            planned@.len() == i,
            forall|f: int|
                0 <= f < i ==> {
                    let inp = #[trigger] files@[f];
                    &&& planned@[f]@.len() == chunk_lens(inp.data@).len()
                    &&& forall|k: int| 0 <= k < planned@[f]@.len() ==> (#[trigger] planned@[f]@[k]).payload@.len() <= crate::chunker::MAX_CHUNK
                    &&& forall|k: int|
                        0 <= k < planned@[f]@.len() ==> chunk_ok(
                            inp.data@,
                            offset_of(chunk_lens(inp.data@), k),
                            chunk_lens(inp.data@)[k],
                            #[trigger] planned@[f]@[k],
                            opts.min_gain_ppm,
                        )
                },
        decreases files@.len() - i,
    {
        let d = files[i].data.as_slice();
        assert(d@.len() == d.len());
        let p = plan_file(d, opts.min_gain_ppm);
        planned.push(p);
        i = i + 1;
    }
    proof {
        assert forall|f: int, k: int|
            0 <= f < planned@.len() && 0 <= k < planned@[f]@.len() implies #[trigger] crate::plan::chunk_at(
            planned@,
            f,
            k,
        ).payload@.len() + TAG_LEN <= u64::MAX by {
            let inp = files@[f];
            assert(planned@[f]@[k].payload@.len() <= crate::chunker::MAX_CHUNK);
        }
    }
    proof {
        assert forall|f: int, k: int|
            0 <= f < planned@.len() && 0 <= k < planned@[f]@.len() implies (#[trigger] planned@[f]@[k]).payload@.len()
                <= crate::chunker::MAX_CHUNK by {
            let inp = files@[f];
        }
    }
    let planned = planned;
    let chunks = dedup(&planned, opts.aead_key.is_some());
    let mut entries: Vec<FileEntry> = Vec::new();
    let mut j: usize = 0;
    while j < files.len()
        invariant
            j <= files@.len(),
            chunks.refs@.len() == files@.len(),
            entries@.len() == j,
            forall|f: int|
                0 <= f < j ==> {
                    let fe = #[trigger] entries@[f];
                    let inp = files@[f];
                    &&& fe.path@ == inp.path@
                    &&& fe.mode == inp.mode
                    &&& fe.mtime == recorded_time(inp.mtime, opts.deterministic)
                    &&& fe.u_size == inp.data@.len()
                    &&& fe.chunk_refs@ == chunks.refs@[f]@
                },
        decreases files@.len() - j,
    {
        let inp = &files[j];
        entries.push(FileEntry {
            path: inp.path.clone(),
            mode: inp.mode,
            mtime: if opts.deterministic { 0 } else { inp.mtime },
            u_size: inp.data.len() as u64,
            chunk_refs: copy_refs(&chunks.refs[j]),
        });
        j = j + 1;
    }
    let mut dir_entries: Vec<DirEntry> = Vec::new();
    let mut d: usize = 0;
    while d < dirs.len()
        invariant
            d <= dirs@.len(),
            dir_entries@.len() == d,
            forall|x: int|
                0 <= x < d ==> {
                    let de = #[trigger] dir_entries@[x];
                    &&& de.path@ == dirs@[x].path@
                    &&& de.mode == dirs@[x].mode
                    &&& de.mtime == recorded_time(dirs@[x].mtime, opts.deterministic)
                },
        decreases dirs@.len() - d,
    {
        let inp = &dirs[d];
        dir_entries.push(DirEntry {
            path: inp.path.clone(),
            mode: inp.mode,
            mtime: if opts.deterministic { 0 } else { inp.mtime },
        });
        d = d + 1;
    }
    let manifest = Manifest {
        files: entries,
        dirs: dir_entries,
        meta: Meta { created: if opts.deterministic { 0 } else { created }, tool: "arx-core/chunked-alpha".to_owned() },
    };
    PackPlan { manifest, chunks, planned: Ghost(planned@) }
}

} // verus!
