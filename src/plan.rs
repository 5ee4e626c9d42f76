//! Planning a container: per-file chunk records, then deduplication into a chunk table.
use vstd::prelude::*;
use crate::chunker::chunk_lens;
use crate::chunktab::ChunkEntry;
use crate::codec::{choose_codec, copy_bytes, gain_ok, spec_effective_gain, zstd_compress, zstd_encoded, CodecId};
use crate::crypto::{blake3_digest, blake3_of, TAG_LEN};
use crate::manifest::ChunkRef;

verus! {

/// One chunk of an input file, ready to be stored.
#[derive(Debug, Clone)]
pub struct NewChunk {
    /// BLAKE3 of the uncompressed bytes.
    pub hash: [u8; 32],
    pub u_size: u64,
    pub codec: CodecId,
    /// The bytes to store before any sealing: the chunk itself, or its zstd frame.
    pub payload: Vec<u8>,
    /// Where the chunk starts in its file.
    pub file_off: u64,
}

/// The payload and codec of a chunk follow the codec policy: ZSTD exactly where its frame saves
/// the required gain, STORE with the bytes verbatim otherwise.
pub open spec fn payload_ok(piece: Seq<u8>, codec: CodecId, payload: Seq<u8>, g: u64) -> bool {
    match codec {
        CodecId::Store => payload == piece && !gain_ok(
            piece.len() as int,
            zstd_encoded(piece).len() as int,
            spec_effective_gain(g),
        ),
        CodecId::Zstd => payload == zstd_encoded(piece) && gain_ok(
            piece.len() as int,
            payload.len() as int,
            spec_effective_gain(g),
        ),
    }
}

/// Whether `c` records the bytes `data[off..off+len]` under gain `g`.
pub open spec fn chunk_ok(data: Seq<u8>, off: int, len: int, c: NewChunk, g: u64) -> bool {
    &&& c.file_off == off
    &&& c.u_size == len
    &&& c.hash@ == blake3_of(data.subrange(off, off + len))
    &&& payload_ok(data.subrange(off, off + len), c.codec, c.payload@, g)
}

/// The start of the `i`-th chunk: the sum of the lengths before it.
pub open spec fn offset_of(lens: Seq<int>, i: int) -> int
    decreases i,
{
    if i <= 0 {
        0
    } else {
        offset_of(lens, i - 1) + lens[i - 1]
    }
}

/// Hashes a chunk and picks its codec by trial compression.
pub fn plan_chunk(piece: &[u8], file_off: u64, min_gain_ppm: u64) -> (r: NewChunk)
    requires
        piece@.len() <= u64::MAX,
    ensures
        r.file_off == file_off,
        r.u_size == piece@.len(),
        r.hash@ == blake3_of(piece@),
        payload_ok(piece@, r.codec, r.payload@, min_gain_ppm),
        r.codec == (if gain_ok(piece@.len() as int, zstd_encoded(piece@).len() as int, spec_effective_gain(min_gain_ppm)) {
            CodecId::Zstd
        } else {
            CodecId::Store
        }),
        r.payload@.len() <= piece@.len(),
{
    let hash = blake3_digest(piece);
    let z = zstd_compress(piece);
    let zlen: Option<u64> = match &z {
        Some(c) => Some(c.len() as u64),
        None => None,
    };
    let codec = choose_codec(piece.len() as u64, zlen, min_gain_ppm);
    let payload = match (codec, z) {
        (CodecId::Zstd, Some(c)) => c,
        _ => copy_bytes(piece),
    };
    proof {
        if codec == CodecId::Zstd {
            let u = piece@.len() as int;
            let c = payload@.len() as int;
            let g = spec_effective_gain(min_gain_ppm);
            assert(c <= u) by (nonlinear_arith)
                requires
                    (u - c) * 1_000_000 >= u * g,
                    g >= 0,
                    u >= 0,
            ;
        }
    }
    NewChunk { hash, u_size: piece.len() as u64, codec, payload, file_off }
}

/// Splits a file's content into chunks and plans each.
pub fn plan_file(data: &[u8], min_gain_ppm: u64) -> (r: Vec<NewChunk>)
    requires
        data@.len() <= u64::MAX,
    ensures
        r@.len() == chunk_lens(data@).len(),
        forall|i: int|
            0 <= i < r@.len() ==> chunk_ok(
                data@,
                offset_of(chunk_lens(data@), i),
                chunk_lens(data@)[i],
                #[trigger] r@[i],
                min_gain_ppm,
            ),
        forall|i: int| 0 <= i < r@.len() ==> (#[trigger] r@[i]).payload@.len() <= data@.len(),
        forall|i: int| 0 <= i < r@.len() ==> (#[trigger] r@[i]).payload@.len() <= crate::chunker::MAX_CHUNK,
{
    let lens = crate::chunker::split_lens(data);
    let ghost cl = chunk_lens(data@);
    proof {
        crate::chunker::lemma_chunks_cover(data@);
        lemma_offsets_bounded(cl, data@.len() as int);
    }
    let mut out: Vec<NewChunk> = Vec::new();
    let mut off: usize = 0;
    let mut i: usize = 0;
    while i < lens.len()
        invariant
            lens@.len() == cl.len(),
            forall|k: int| 0 <= k < lens@.len() ==> lens@[k] as int == #[trigger] cl[k],
            forall|k: int| 0 <= k <= cl.len() ==> offset_of(cl, k) <= data@.len(),
            forall|k: int| 0 <= k < cl.len() ==> 0 < #[trigger] cl[k],
            data@.len() <= u64::MAX,
            data@.len() == data.len(),
            i <= lens@.len(),
            off as int == offset_of(cl, i as int),
            out@.len() == i,
            forall|k: int|
                0 <= k < i ==> chunk_ok(data@, offset_of(cl, k), cl[k], #[trigger] out@[k], min_gain_ppm),
            forall|k: int| 0 <= k < i ==> (#[trigger] out@[k]).payload@.len() <= data@.len(),
            forall|k: int| 0 <= k < i ==> (#[trigger] out@[k]).payload@.len() <= crate::chunker::MAX_CHUNK,
            forall|k: int| 0 <= k < cl.len() ==> #[trigger] cl[k] <= crate::chunker::MAX_CHUNK,
        decreases lens@.len() - i,
    {
        let len = lens[i];
        assert(offset_of(cl, i + 1) == off + len);
        let c = plan_chunk(&data[off..off + len], off as u64, min_gain_ppm);
        out.push(c);
        off = off + len;
        i = i + 1;
    }
    out
}

proof fn lemma_offsets_bounded(cl: Seq<int>, total: int)
    requires
        crate::chunker::sum(cl) == total,
        forall|k: int| 0 <= k < cl.len() ==> 0 < #[trigger] cl[k],
    ensures
        forall|k: int| 0 <= k <= cl.len() ==> offset_of(cl, k) <= total,
{
    assert forall|k: int| 0 <= k <= cl.len() implies offset_of(cl, k) <= total by {
        lemma_offset_plus_rest(cl, k);
    }
}

pub(crate) proof fn lemma_offset_plus_rest(cl: Seq<int>, k: int)
    requires
        0 <= k <= cl.len(),
        forall|j: int| 0 <= j < cl.len() ==> 0 < #[trigger] cl[j],
    ensures
        offset_of(cl, k) + crate::chunker::sum(cl.subrange(k, cl.len() as int)) == crate::chunker::sum(cl),
        crate::chunker::sum(cl.subrange(k, cl.len() as int)) >= 0,
    decreases k,
{
    if k == 0 {
        assert(cl.subrange(0, cl.len() as int) =~= cl);
        lemma_sum_nonneg(cl);
    } else {
        lemma_offset_plus_rest(cl, k - 1);
        let r = cl.subrange(k - 1, cl.len() as int);
        assert(r.drop_first() =~= cl.subrange(k, cl.len() as int));
        lemma_sum_nonneg(cl.subrange(k, cl.len() as int));
    }
}

pub(crate) proof fn lemma_sum_nonneg(l: Seq<int>)
    requires
        forall|j: int| 0 <= j < l.len() ==> 0 < #[trigger] l[j],
    ensures
        crate::chunker::sum(l) >= 0,
    decreases l.len(),
{
    if l.len() > 0 {
        assert forall|j: int| 0 <= j < l.drop_first().len() implies 0 < #[trigger] l.drop_first()[j] by {
            assert(l.drop_first()[j] == l[j + 1]);
        }
        lemma_sum_nonneg(l.drop_first());
    }
}

/// The chunk table of a container in planning, with where each entry came from.
#[derive(Debug, Clone)]
pub struct DedupPlan {
    /// One entry per unique chunk; `data_off` is filled in by the layout.
    pub entries: Vec<ChunkEntry>,
    pub hashes: Vec<[u8; 32]>,
    pub payloads: Vec<Vec<u8>>,
    /// The (file, chunk) position of each entry's first occurrence.
    pub sources: Vec<(usize, usize)>,
    /// For each file, its chunk references in chunk order.
    pub refs: Vec<Vec<ChunkRef>>,
}

/// Position `(f1, k1)` comes before `(f2, k2)`: by file, then by chunk.
pub open spec fn pos_lt(f1: int, k1: int, f2: int, k2: int) -> bool {
    f1 < f2 || (f1 == f2 && k1 < k2)
}

pub open spec fn before_source(f: int, k: int, src: (usize, usize)) -> bool {
    pos_lt(f, k, src.0 as int, src.1 as int)
}

pub open spec fn chunk_at(files: Seq<Vec<NewChunk>>, f: int, k: int) -> NewChunk {
    files[f]@[k]
}

pub open spec fn valid_pos(files: Seq<Vec<NewChunk>>, p: (usize, usize)) -> bool {
    p.0 < files.len() && p.1 < files[p.0 as int]@.len()
}

pub open spec fn planned_entry(c: NewChunk, sealed: bool) -> ChunkEntry {
    ChunkEntry {
        codec: c.codec.spec_tag(),
        u_size: c.u_size,
        c_size: (c.payload@.len() + if sealed { TAG_LEN } else { 0 }) as u64,
        data_off: 0,
    }
}

/// The table part of a dedup plan: entries, hashes and payloads come from first occurrences
/// taken in input order, and no hash is stored twice.
pub open spec fn table_ok(files: Seq<Vec<NewChunk>>, sealed: bool, r: DedupPlan) -> bool {
    let n = r.entries@.len();
    &&& r.hashes@.len() == n
    &&& r.payloads@.len() == n
    &&& r.sources@.len() == n
    &&& forall|id: int|
        0 <= id < n ==> {
            let src = #[trigger] r.sources@[id];
            let c = chunk_at(files, src.0 as int, src.1 as int);
            &&& valid_pos(files, src)
            &&& r.hashes@[id]@ == c.hash@
            &&& r.payloads@[id]@ == c.payload@
            &&& r.entries@[id] == planned_entry(c, sealed)
        }
    &&& forall|i: int, j: int|
        0 <= i < j < n ==> #[trigger] r.hashes@[i]@ != #[trigger] r.hashes@[j]@
    &&& forall|i: int, j: int|
        0 <= i < j < n ==> pos_lt(
            (#[trigger] r.sources@[i]).0 as int,
            r.sources@[i].1 as int,
            (#[trigger] r.sources@[j]).0 as int,
            r.sources@[j].1 as int,
        )
}

/// Whether position `(f, k)` is referenced correctly: its id names an entry with its hash.
pub open spec fn ref_ok(files: Seq<Vec<NewChunk>>, r: DedupPlan, f: int, k: int, rf: ChunkRef) -> bool {
    let c = chunk_at(files, f, k);
    &&& rf.id < r.entries@.len()
    &&& r.hashes@[rf.id as int]@ == c.hash@
    &&& rf.u_size == c.u_size
}

/// What `dedup` guarantees of its plan.
pub open spec fn dedup_ok(files: Seq<Vec<NewChunk>>, sealed: bool, r: DedupPlan) -> bool {
    &&& table_ok(files, sealed, r)
    &&& r.refs@.len() == files.len()
    &&& forall|f: int| 0 <= f < files.len() ==> #[trigger] r.refs@[f]@.len() == files[f]@.len()
    &&& forall|f: int, k: int|
        0 <= f < files.len() && 0 <= k < files[f]@.len() ==> ref_ok(files, r, f, k, #[trigger] r.refs@[f]@[k])
    &&& forall|id: int, f: int, k: int|
        0 <= id < r.entries@.len() && 0 <= f < files.len() && 0 <= k < files[f]@.len() && before_source(f, k, #[trigger] r.sources@[id]) ==> #[trigger] chunk_at(files, f, k).hash@ != r.hashes@[id]@
}

/// Whether two 32-byte arrays are equal.
pub fn eq32(a: &[u8; 32], b: &[u8; 32]) -> (r: bool)
    ensures
        r == (a@ == b@),
{
    let mut i: usize = 0;
    while i < 32
        invariant
            i <= 32,
            a@.len() == 32,
            b@.len() == 32,
            forall|j: int| 0 <= j < i ==> a@[j] == b@[j],
        decreases 32 - i,
    {
        if a[i] != b[i] {
            return false;
        }
        i = i + 1;
    }
    assert(a@ =~= b@);
    true
}

/// The id of the entry whose hash is `h`, if any.
fn find_hash(hashes: &Vec<[u8; 32]>, h: &[u8; 32]) -> (r: Option<usize>)
    ensures
        r matches Some(id) ==> id < hashes@.len() && hashes@[id as int]@ == h@,
        r is None ==> forall|id: int| 0 <= id < hashes@.len() ==> #[trigger] hashes@[id]@ != h@,
{
    let mut i: usize = 0;
    while i < hashes.len()
        invariant
            i <= hashes@.len(),
            forall|id: int| 0 <= id < i ==> #[trigger] hashes@[id]@ != h@,
        decreases hashes@.len() - i,
    {
        if eq32(&hashes[i], h) {
            return Some(i);
        }
        i = i + 1;
    }
    None
}

/// Assigns chunk ids in order of first appearance, keyed by hash: each unique chunk enters the
/// table once, and every file refers to its chunks by id, duplicates included.
pub fn dedup(files: &Vec<Vec<NewChunk>>, sealed: bool) -> (r: DedupPlan)
    requires
        forall|f: int, k: int|
            0 <= f < files@.len() && 0 <= k < files@[f]@.len() ==> #[trigger] chunk_at(files@, f, k).payload@.len()
                + TAG_LEN <= u64::MAX,
    ensures
        dedup_ok(files@, sealed, r),
        crate::writer::plan_sized(r, sealed),
{
    let mut r = DedupPlan {
        entries: Vec::new(),
        hashes: Vec::new(),
        payloads: Vec::new(),
        sources: Vec::new(),
        refs: Vec::new(),
    };
    let ghost fs = files@;
    let mut f: usize = 0;
    while f < files.len()
        invariant
            fs == files@,
            f <= fs.len(),
            forall|f2: int, k: int|
                0 <= f2 < fs.len() && 0 <= k < fs[f2]@.len() ==> #[trigger] chunk_at(fs, f2, k).payload@.len()
                    + TAG_LEN <= u64::MAX,
            table_ok(fs, sealed, r),
            r.refs@.len() == f,
            forall|id: int| 0 <= id < r.sources@.len() ==> (#[trigger] r.sources@[id]).0 < f,
            forall|f2: int| 0 <= f2 < f ==> #[trigger] r.refs@[f2]@.len() == fs[f2]@.len(),
            forall|f2: int, k: int|
                0 <= f2 < f && 0 <= k < fs[f2]@.len() ==> ref_ok(fs, r, f2, k, #[trigger] r.refs@[f2]@[k]),
            forall|id: int, f2: int, k: int|
                0 <= id < r.entries@.len() && 0 <= f2 < f && 0 <= k < fs[f2]@.len() && before_source(f2, k, #[trigger] r.sources@[id]) ==> #[trigger] chunk_at(fs, f2, k).hash@ != r.hashes@[id]@,
        decreases fs.len() - f,
    {
        let chunks = &files[f];
        let mut cur: Vec<ChunkRef> = Vec::new();
        let mut k: usize = 0;
        while k < chunks.len()
            invariant
                fs == files@,
                f < fs.len(),
                chunks@ == fs[f as int]@,
                k <= chunks@.len(),
                forall|f2: int, k2: int|
                    0 <= f2 < fs.len() && 0 <= k2 < fs[f2]@.len() ==> #[trigger] chunk_at(fs, f2, k2).payload@.len()
                        + TAG_LEN <= u64::MAX,
                table_ok(fs, sealed, r),
                r.refs@.len() == f,
                cur@.len() == k,
                forall|id: int|
                    0 <= id < r.sources@.len() ==> pos_lt(
                        (#[trigger] r.sources@[id]).0 as int,
                        r.sources@[id].1 as int,
                        f as int,
                        k as int,
                    ),
                forall|f2: int| 0 <= f2 < f ==> #[trigger] r.refs@[f2]@.len() == fs[f2]@.len(),
                forall|f2: int, k2: int|
                    0 <= f2 < f && 0 <= k2 < fs[f2]@.len() ==> ref_ok(fs, r, f2, k2, #[trigger] r.refs@[f2]@[k2]),
                forall|k2: int| 0 <= k2 < k ==> ref_ok(fs, r, f as int, k2, #[trigger] cur@[k2]),
                forall|id: int, f2: int, k2: int|
                    0 <= id < r.entries@.len() && 0 <= f2 < fs.len() && 0 <= k2 < fs[f2]@.len() && before_source(f2, k2, #[trigger] r.sources@[id]) ==> #[trigger] chunk_at(fs, f2, k2).hash@ != r.hashes@[id]@,
            decreases chunks@.len() - k,
        {
            let c = &chunks[k];
            assert(*c == chunk_at(fs, f as int, k as int));
            match find_hash(&r.hashes, &c.hash) {
                Some(id) => {
                    cur.push(ChunkRef { id: id as u64, u_size: c.u_size });
                },
                None => {
                    let ghost old_r = r;
                    let ghost old_cur = cur@;
                    let id = r.entries.len();
                    let tag: u64 = if sealed { TAG_LEN } else { 0 };
                    r.entries.push(ChunkEntry {
                        codec: c.codec.tag(),
                        u_size: c.u_size,
                        c_size: c.payload.len() as u64 + tag,
                        data_off: 0,
                    });
                    r.hashes.push(c.hash);
                    r.payloads.push(copy_bytes(c.payload.as_slice()));
                    r.sources.push((f, k));
                    cur.push(ChunkRef { id: id as u64, u_size: c.u_size });
                    proof {
                        assert forall|id2: int, f2: int, k2: int|
                            0 <= id2 < r.entries@.len() && 0 <= f2 < fs.len() && 0 <= k2 < fs[f2]@.len()
                                && before_source(f2, k2, #[trigger] r.sources@[id2]) implies #[trigger] chunk_at(
                            fs,
                            f2,
                            k2,
                        ).hash@ != r.hashes@[id2]@ by {
                            if id2 == id {
                                if f2 < f {
                                    assert(ref_ok(fs, old_r, f2, k2, r.refs@[f2]@[k2]));
                                } else {
                                    assert(r.sources@[id2] == (f, k));
                                    assert(f2 == f && k2 < k);
                                    assert(ref_ok(fs, old_r, f as int, k2, old_cur[k2]));
                                    assert(old_r.hashes@[old_cur[k2].id as int] == r.hashes@[old_cur[k2].id as int]);
                                }
                            } else {
                                assert(old_r.sources@[id2] == r.sources@[id2]);
                            }
                        }
                        assert forall|k2: int| 0 <= k2 < k implies ref_ok(fs, r, f as int, k2, #[trigger] cur@[k2]) by {
                            assert(ref_ok(fs, old_r, f as int, k2, old_cur[k2]));
                        }
                        assert forall|f2: int, k2: int|
                            0 <= f2 < f && 0 <= k2 < fs[f2]@.len() implies ref_ok(fs, r, f2, k2, #[trigger] r.refs@[f2]@[k2]) by {
                            assert(ref_ok(fs, old_r, f2, k2, r.refs@[f2]@[k2]));
                        }
                    }
                },
            }
            k = k + 1;
        }
        r.refs.push(cur);
        proof {
            assert forall|f2: int, k2: int|
                0 <= f2 < f + 1 && 0 <= k2 < fs[f2]@.len() implies ref_ok(fs, r, f2, k2, #[trigger] r.refs@[f2]@[k2]) by {
                if f2 < f {
                } else {
                    assert(r.refs@[f2] == cur);
                }
            }
        }
        f = f + 1;
    }
    proof {
        assert forall|i: int| 0 <= i < r.entries@.len() implies (#[trigger] r.entries@[i]).c_size == r.payloads@[i]@.len()
            + if sealed { TAG_LEN } else { 0 } by {
            let src = r.sources@[i];
            assert(valid_pos(fs, src));
            assert(chunk_at(fs, src.0 as int, src.1 as int).payload@.len() + TAG_LEN <= u64::MAX);
        }
    }
    r
}

/// When two chunks of the input share a hash, they share one chunk id, and that id is the
/// only table entry with the hash.
pub proof fn lemma_shared_chunk_stored_once(
    files: Seq<Vec<NewChunk>>,
    sealed: bool,
    r: DedupPlan,
    f1: int,
    k1: int,
    f2: int,
    k2: int,
)
    requires
        dedup_ok(files, sealed, r),
        0 <= f1 < files.len(),
        0 <= k1 < files[f1]@.len(),
        0 <= f2 < files.len(),
        0 <= k2 < files[f2]@.len(),
        chunk_at(files, f1, k1).hash@ == chunk_at(files, f2, k2).hash@,
    ensures
        r.refs@[f1]@[k1].id == r.refs@[f2]@[k2].id,
        forall|id: int|
            0 <= id < r.entries@.len() && #[trigger] r.hashes@[id]@ == chunk_at(files, f1, k1).hash@
                ==> id == r.refs@[f1]@[k1].id,
{
    let a = r.refs@[f1]@[k1];
    let b = r.refs@[f2]@[k2];
    assert(ref_ok(files, r, f1, k1, a));
    assert(ref_ok(files, r, f2, k2, b));
    if a.id < b.id {
        assert(r.hashes@[a.id as int]@ != r.hashes@[b.id as int]@);
    } else if b.id < a.id {
        assert(r.hashes@[b.id as int]@ != r.hashes@[a.id as int]@);
    }
    assert forall|id: int|
        0 <= id < r.entries@.len() && #[trigger] r.hashes@[id]@ == chunk_at(files, f1, k1).hash@
            implies id == a.id by {
        if id < a.id {
            assert(r.hashes@[id]@ != r.hashes@[a.id as int]@);
        } else if id > a.id {
            assert(r.hashes@[a.id as int]@ != r.hashes@[id]@);
        }
    }
}

/// Position `(f, k)` holds the first occurrence of its hash.
pub open spec fn first_occurrence(files: Seq<Vec<NewChunk>>, f: int, k: int) -> bool {
    &&& 0 <= f < files.len()
    &&& 0 <= k < files[f]@.len()
    &&& forall|f2: int, k2: int|
        0 <= f2 < files.len() && 0 <= k2 < files[f2]@.len() && pos_lt(f2, k2, f, k) ==> #[trigger] chunk_at(
            files,
            f2,
            k2,
        ).hash@ != chunk_at(files, f, k).hash@
}

/// The sources of a plan are exactly the first occurrences.
proof fn lemma_sources_are_first(files: Seq<Vec<NewChunk>>, sealed: bool, r: DedupPlan)
    requires
        dedup_ok(files, sealed, r),
    ensures
        forall|id: int|
            0 <= id < r.sources@.len() ==> first_occurrence(
                files,
                (#[trigger] r.sources@[id]).0 as int,
                r.sources@[id].1 as int,
            ),
        forall|f: int, k: int|
            #![trigger chunk_at(files, f, k)]
            first_occurrence(files, f, k) ==> exists|id: int|
                0 <= id < r.sources@.len() && (#[trigger] r.sources@[id]).0 == f && r.sources@[id].1 == k,
{
    assert forall|id: int| 0 <= id < r.sources@.len() implies first_occurrence(
        files,
        (#[trigger] r.sources@[id]).0 as int,
        r.sources@[id].1 as int,
    ) by {
        let src = r.sources@[id];
        assert(valid_pos(files, src));
        assert forall|f2: int, k2: int|
            0 <= f2 < files.len() && 0 <= k2 < files[f2]@.len() && pos_lt(f2, k2, src.0 as int, src.1 as int)
                implies #[trigger] chunk_at(files, f2, k2).hash@ != chunk_at(files, src.0 as int, src.1 as int).hash@ by {
            assert(before_source(f2, k2, r.sources@[id]));
        }
    }
    assert forall|f: int, k: int|
        #![trigger chunk_at(files, f, k)]
        first_occurrence(files, f, k) implies exists|id: int|
            0 <= id < r.sources@.len() && (#[trigger] r.sources@[id]).0 == f && r.sources@[id].1 == k by {
        let rf = r.refs@[f]@[k];
        assert(ref_ok(files, r, f, k, rf));
        let id = rf.id as int;
        let src = r.sources@[id];
        assert(valid_pos(files, src));
        let (sf, sk) = (src.0 as int, src.1 as int);
        if pos_lt(sf, sk, f, k) {
            assert(chunk_at(files, sf, sk).hash@ != chunk_at(files, f, k).hash@);
        } else if pos_lt(f, k, sf, sk) {
            assert(before_source(f, k, r.sources@[id]));
        }
        assert(sf == f && sk == k);
    }
}

pub open spec fn sorted_pos(s: Seq<(usize, usize)>) -> bool {
    forall|i: int, j: int|
        0 <= i < j < s.len() ==> pos_lt(
            (#[trigger] s[i]).0 as int,
            s[i].1 as int,
            (#[trigger] s[j]).0 as int,
            s[j].1 as int,
        )
}

pub open spec fn has_pos(s: Seq<(usize, usize)>, p: (usize, usize)) -> bool {
    exists|j: int| 0 <= j < s.len() && s[j] == p
}

/// Two strictly ordered lists of positions with the same members are the same list.
proof fn lemma_sorted_unique(a: Seq<(usize, usize)>, b: Seq<(usize, usize)>)
    requires
        sorted_pos(a),
        sorted_pos(b),
        forall|i: int| 0 <= i < a.len() ==> has_pos(b, #[trigger] a[i]),
        forall|j: int| 0 <= j < b.len() ==> has_pos(a, #[trigger] b[j]),
    ensures
        a == b,
    decreases a.len() + b.len(),
{
    if a.len() == 0 {
        if b.len() > 0 {
            assert(has_pos(a, b[0]));
        }
        assert(a =~= b);
    } else if b.len() == 0 {
        assert(has_pos(b, a[0]));
    } else {
        assert(has_pos(b, a[0]));
        assert(has_pos(a, b[0]));
        let ja = choose|j: int| 0 <= j < b.len() && b[j] == a[0];
        let ib = choose|i: int| 0 <= i < a.len() && a[i] == b[0];
        if ja > 0 && ib > 0 {
            assert(pos_lt(b[0].0 as int, b[0].1 as int, b[ja].0 as int, b[ja].1 as int));
            assert(pos_lt(a[0].0 as int, a[0].1 as int, a[ib].0 as int, a[ib].1 as int));
        } else if ja > 0 {
            assert(pos_lt(b[0].0 as int, b[0].1 as int, b[ja].0 as int, b[ja].1 as int));
        } else if ib > 0 {
            assert(pos_lt(a[0].0 as int, a[0].1 as int, a[ib].0 as int, a[ib].1 as int));
        }
        assert(a[0] == b[0]);
        let a1 = a.drop_first();
        let b1 = b.drop_first();
        assert(sorted_pos(a1)) by {
            assert forall|i: int, j: int| 0 <= i < j < a1.len() implies pos_lt(
                (#[trigger] a1[i]).0 as int,
                a1[i].1 as int,
                (#[trigger] a1[j]).0 as int,
                a1[j].1 as int,
            ) by {
                assert(a1[i] == a[i + 1] && a1[j] == a[j + 1]);
            }
        }
        assert(sorted_pos(b1)) by {
            assert forall|i: int, j: int| 0 <= i < j < b1.len() implies pos_lt(
                (#[trigger] b1[i]).0 as int,
                b1[i].1 as int,
                (#[trigger] b1[j]).0 as int,
                b1[j].1 as int,
            ) by {
                assert(b1[i] == b[i + 1] && b1[j] == b[j + 1]);
            }
        }
        assert forall|i: int| 0 <= i < a1.len() implies has_pos(b1, #[trigger] a1[i]) by {
            assert(a1[i] == a[i + 1]);
            assert(has_pos(b, a[i + 1]));
            let j = choose|j: int| 0 <= j < b.len() && b[j] == a[i + 1];
            assert(pos_lt(a[0].0 as int, a[0].1 as int, a[i + 1].0 as int, a[i + 1].1 as int));
            assert(j != 0);
            assert(b1[j - 1] == a1[i]);
        }
        assert forall|j: int| 0 <= j < b1.len() implies has_pos(a1, #[trigger] b1[j]) by {
            assert(b1[j] == b[j + 1]);
            assert(has_pos(a, b[j + 1]));
            let i = choose|i: int| 0 <= i < a.len() && a[i] == b[j + 1];
            assert(pos_lt(b[0].0 as int, b[0].1 as int, b[j + 1].0 as int, b[j + 1].1 as int));
            assert(i != 0);
            assert(a1[i - 1] == b1[j]);
        }
        lemma_sorted_unique(a1, b1);
        assert(a =~= b) by {
            assert forall|i: int| 0 <= i < a.len() implies a[i] == b[i] by {
                if i > 0 {
                    assert(a[i] == a1[i - 1] && b[i] == b1[i - 1]);
                }
            }
        }
    }
}

/// The plan is a function of the chunk records: any two plans that meet the dedup contract for
/// the same records have the same sources, table entries and hashes, and give every chunk the
/// same id.
#[verifier::rlimit(100)]
pub proof fn lemma_dedup_deterministic(files: Seq<Vec<NewChunk>>, sealed: bool, r1: DedupPlan, r2: DedupPlan)
    requires
        dedup_ok(files, sealed, r1),
        dedup_ok(files, sealed, r2),
    ensures
        r1.sources@ == r2.sources@,
        r1.entries@ == r2.entries@,
        r1.hashes@.len() == r2.hashes@.len(),
        forall|id: int| 0 <= id < r1.hashes@.len() ==> (#[trigger] r1.hashes@[id])@ == r2.hashes@[id]@,
        forall|f: int, k: int|
            0 <= f < files.len() && 0 <= k < files[f]@.len() ==> (#[trigger] r1.refs@[f]@[k]) == r2.refs@[f]@[k],
{
    let a = r1.sources@;
    let b = r2.sources@;
    assert(a == b) by {
        lemma_sources_are_first(files, sealed, r1);
        lemma_sources_are_first(files, sealed, r2);
        assert forall|i: int| 0 <= i < a.len() implies has_pos(b, #[trigger] a[i]) by {
            let (f, k) = (a[i].0 as int, a[i].1 as int);
            assert(first_occurrence(files, f, k));
            let _ = chunk_at(files, f, k);
            let j = choose|j: int| 0 <= j < b.len() && (#[trigger] b[j]).0 == f && b[j].1 == k;
            assert(b[j] == a[i]);
        }
        assert forall|j: int| 0 <= j < b.len() implies has_pos(a, #[trigger] b[j]) by {
            let (f, k) = (b[j].0 as int, b[j].1 as int);
            assert(first_occurrence(files, f, k));
            let _ = chunk_at(files, f, k);
            let i = choose|i: int| 0 <= i < a.len() && (#[trigger] a[i]).0 == f && a[i].1 == k;
            assert(a[i] == b[j]);
        }
        lemma_sorted_unique(a, b);
    }
    assert(forall|id: int| 0 <= id < r1.hashes@.len() ==> (#[trigger] r1.hashes@[id])@ == r2.hashes@[id]@) by {
        assert forall|id: int| 0 <= id < r1.hashes@.len() implies (#[trigger] r1.hashes@[id])@ == r2.hashes@[id]@ by {
            let src = r1.sources@[id];
            assert(r2.sources@[id] == src);
        }
    }
    assert(r1.entries@ =~= r2.entries@) by {
        assert forall|id: int| 0 <= id < r1.entries@.len() implies r1.entries@[id] == r2.entries@[id] by {
            let src = r1.sources@[id];
            assert(r2.sources@[id] == src);
        }
    }
    assert forall|f: int, k: int| 0 <= f < files.len() && 0 <= k < files[f]@.len() implies (#[trigger] r1.refs@[f]@[k])
        == r2.refs@[f]@[k] by {
        let x = r1.refs@[f]@[k];
        let y = r2.refs@[f]@[k];
        assert(ref_ok(files, r1, f, k, x));
        assert(ref_ok(files, r2, f, k, y));
        assert(r1.hashes@[y.id as int]@ == r2.hashes@[y.id as int]@);
        if x.id < y.id {
            assert(r1.hashes@[x.id as int]@ != r1.hashes@[y.id as int]@);
        } else if y.id < x.id {
            assert(r1.hashes@[y.id as int]@ != r1.hashes@[x.id as int]@);
        }
    }
}

} // verus!
