//! The overlay: journal records for mutations, reads through the delta store, and the input
//! tree that compaction packs into a fresh container.
use vstd::prelude::*;
use crate::codec::CodecId;
use crate::crypto::{blake3_digest, blake3_of};
use crate::error::{ArxError, FormatError};
use crate::index::{ChunkRef, Entry, EntryView, InMemIndex, Loc, LogRecord};
use crate::pack::InputFile;
use crate::sidecar::{opened_payload, read_frame, Sidecar};

verus! {

/// The record that puts `content`, stored as one delta frame at `off` of `len` bytes.
pub fn put_record(path: &str, mode: u32, mtime: u64, content: &[u8], off: u64, len: u64) -> (r: LogRecord)
    ensures
        r matches LogRecord::Put { path: p, mode: m, mtime: t, size, chunks },
        r matches LogRecord::Put { path: p, mode: m, mtime: t, size, chunks } ==> (p@ == path@ && m == mode
            && t == mtime && size == content@.len() && chunks@.len() == 1 && chunks@[0].loc == Loc::Delta
            && chunks@[0].off == off && chunks@[0].len == len && chunks@[0].codec == CodecId::Store
            && chunks@[0].blake3@ == blake3_of(content@)),
{
    let hash = blake3_digest(content);
    let mut chunks: Vec<ChunkRef> = Vec::new();
    chunks.push(ChunkRef { loc: Loc::Delta, off, len, codec: CodecId::Store, blake3: hash });
    LogRecord::Put { path: path.to_owned(), mode, mtime, size: content.len() as u64, chunks }
}

/// The content of an overlay entry: its delta frames in order.
pub open spec fn spec_frames(delta: Seq<u8>, key: Option<[u8; 32]>, salt: Seq<u8>, chunks: Seq<ChunkRef>) -> Result<
    Seq<u8>,
    ArxError,
>
    decreases chunks.len(),
{
    if chunks.len() == 0 {
        Ok(Seq::empty())
    } else {
        match spec_frames(delta, key, salt, chunks.drop_last()) {
            Err(e) => Err(e),
            Ok(prefix) => {
                let c = chunks.last();
                if c.off + c.len > delta.len() {
                    Err(ArxError::Format(FormatError::ShortRead))
                } else {
                    match opened_payload(key, salt, Sidecar::Delta, c.off, delta.subrange(c.off as int, c.off + c.len)) {
                        None => Err(ArxError::Format(FormatError::AuthFailed)),
                        Some(p) => Ok(prefix + p),
                    }
                }
            },
        }
    }
}

/// What reading an overlay entry gives: its frames, unless a chunk lives in the base container.
pub open spec fn spec_entry_content(delta: Seq<u8>, key: Option<[u8; 32]>, salt: Seq<u8>, e: EntryView) -> Result<
    Seq<u8>,
    ArxError,
> {
    if exists|i: int| 0 <= i < e.chunks.len() && (#[trigger] e.chunks[i]).loc == Loc::Base {
        Err(ArxError::Format(FormatError::BaseNotWired))
    } else {
        spec_frames(delta, key, salt, e.chunks)
    }
}

/// Whether entry `e` is one delta frame holding `m` in its stored form, as a put writes it.
pub open spec fn put_frame_holds(delta: Seq<u8>, key: Option<[u8; 32]>, salt: Seq<u8>, e: EntryView, m: Seq<u8>) -> bool {
    let c = e.chunks[0];
    &&& e.chunks.len() == 1
    &&& c.loc == Loc::Delta
    &&& m.len() <= crate::crypto::AEAD_MAX_PLAIN
    &&& c.len == m.len() + (if key.is_some() { crate::crypto::TAG_LEN } else { 0 })
    &&& c.off + c.len <= delta.len()
    &&& delta.subrange(c.off as int, c.off + c.len) == crate::sidecar::sealed_payload(key, salt, Sidecar::Delta, c.off, m)
}

/// Reads the content of an overlay entry from the delta store.
pub fn entry_content(delta: &[u8], key: &Option<[u8; 32]>, salt: &[u8; 32], e: &Entry) -> (r: Result<Vec<u8>, ArxError>)
    ensures
        crate::reader::res_bytes(r) == spec_entry_content(delta@, *key, salt@, e.view()),
        forall|m: Seq<u8>|
            #![trigger put_frame_holds(delta@, *key, salt@, e.view(), m)]
            put_frame_holds(delta@, *key, salt@, e.view(), m) ==> (r matches Ok(v) && v@ == m),
{
    if e.chunks.len() == 1 && e.chunks[0].loc == Loc::Delta {
        let c = e.chunks[0];
        let r = read_frame(delta, c.off, c.len, key, salt);
        proof {
            assert(e.chunks@.drop_last() =~= Seq::<ChunkRef>::empty());
            assert(spec_frames(delta@, *key, salt@, e.chunks@.drop_last()) == Ok::<Seq<u8>, ArxError>(Seq::empty()));
            assert(e.chunks@.last() == c);
            assert(!exists|i: int| 0 <= i < e.chunks@.len() && (#[trigger] e.chunks@[i]).loc == Loc::Base);
            if r is Ok {
                assert(Seq::<u8>::empty() + r->Ok_0@ =~= r->Ok_0@);
            }
        }
        return r;
    }
    let mut i: usize = 0;
    while i < e.chunks.len()
        invariant
            i <= e.chunks@.len(),
            forall|j: int| 0 <= j < i ==> (#[trigger] e.chunks@[j]).loc != Loc::Base,
        decreases e.chunks@.len() - i,
    {
        if e.chunks[i].loc == Loc::Base {
            return Err(ArxError::Format(FormatError::BaseNotWired));
        }
        i = i + 1;
    }
    let mut out: Vec<u8> = Vec::new();
    let mut k: usize = 0;
    assert(e.chunks@.subrange(0, 0) =~= Seq::<ChunkRef>::empty());
    while k < e.chunks.len()
        invariant
            k <= e.chunks@.len(),
            forall|j: int| 0 <= j < e.chunks@.len() ==> (#[trigger] e.chunks@[j]).loc != Loc::Base,
            spec_frames(delta@, *key, salt@, e.chunks@.subrange(0, k as int)) == Ok::<Seq<u8>, ArxError>(out@),
        decreases e.chunks@.len() - k,
    {
        let c = e.chunks[k];
        let ghost pre = e.chunks@.subrange(0, k + 1);
        assert(pre.drop_last() =~= e.chunks@.subrange(0, k as int));
        assert(pre.last() == c);
        match read_frame(delta, c.off, c.len, key, salt) {
            Ok(p) => {
                let ghost prev = out@;
                out.extend_from_slice(p.as_slice());
                assert(out@ =~= prev + p@);
            },
            Err(err) => {
                proof {
                    lemma_frames_err_sticks(delta@, *key, salt@, e.chunks@, k + 1);
                }
                return Err(err);
            },
        }
        k = k + 1;
    }
    assert(e.chunks@.subrange(0, k as int) =~= e.chunks@);
    Ok(out)
}

proof fn lemma_frames_err_sticks(delta: Seq<u8>, key: Option<[u8; 32]>, salt: Seq<u8>, chunks: Seq<ChunkRef>, i: int)
    requires
        0 <= i <= chunks.len(),
        spec_frames(delta, key, salt, chunks.subrange(0, i)) is Err,
    ensures
        spec_frames(delta, key, salt, chunks) == spec_frames(delta, key, salt, chunks.subrange(0, i)),
    decreases chunks.len() - i,
{
    if i < chunks.len() {
        let next = chunks.subrange(0, i + 1);
        assert(next.drop_last() =~= chunks.subrange(0, i));
        lemma_frames_err_sticks(delta, key, salt, chunks, i + 1);
    } else {
        assert(chunks.subrange(0, i) =~= chunks);
    }
}

/// Reads the overlay content of `path`.
pub fn open_reader(index: &InMemIndex, delta: &[u8], key: &Option<[u8; 32]>, salt: &[u8; 32], path: &String) -> (r: Result<
    Vec<u8>,
    ArxError,
>)
    requires
        index.wf(),
    ensures
        !index@.contains_key(path@) ==> (r matches Err(e) && e == ArxError::Format(FormatError::NotFound)),
        index@.contains_key(path@) ==> crate::reader::res_bytes(r) == spec_entry_content(
            delta@,
            *key,
            salt@,
            index@[path@],
        ),
        forall|m: Seq<u8>|
            #![trigger put_frame_holds(delta@, *key, salt@, index@[path@], m)]
            index@.contains_key(path@) && put_frame_holds(delta@, *key, salt@, index@[path@], m) ==> (r matches Ok(v)
                && v@ == m),
{
    match index.get(path) {
        None => Err(ArxError::Format(FormatError::NotFound)),
        Some(e) => entry_content(delta, key, salt, e),
    }
}

/// The input tree that compacting an overlay packs: each path with its content, in index order.
pub fn overlay_inputs(index: &InMemIndex, delta: &[u8], key: &Option<[u8; 32]>, salt: &[u8; 32]) -> (r: Result<
    Vec<InputFile>,
    ArxError,
>)
    requires
        index.wf(),
    ensures
        r matches Ok(v) ==> (v@.len() == index.by_path@.len() && forall|i: int|
            0 <= i < v@.len() ==> (#[trigger] v@[i]).path@ == index.by_path@[i].0@ && spec_entry_content(
                delta@,
                *key,
                salt@,
                index.by_path@[i].1.view(),
            ) == Ok::<Seq<u8>, ArxError>(v@[i].data@)),
        r matches Err(e) ==> exists|i: int|
            0 <= i < index.by_path@.len() && spec_entry_content(delta@, *key, salt@, (#[trigger] index.by_path@[i]).1.view())
                == Err::<Seq<u8>, ArxError>(e),
        (forall|i: int|
            0 <= i < index.by_path@.len() ==> spec_entry_content(delta@, *key, salt@, (#[trigger] index.by_path@[i]).1.view())
                is Ok) ==> r is Ok,
{
    let mut out: Vec<InputFile> = Vec::new();
    let mut i: usize = 0;
    while i < index.by_path.len()
        invariant
            i <= index.by_path@.len(),
            out@.len() == i,
            forall|j: int|
                0 <= j < i ==> (#[trigger] out@[j]).path@ == index.by_path@[j].0@ && spec_entry_content(
                    delta@,
                    *key,
                    salt@,
                    index.by_path@[j].1.view(),
                ) == Ok::<Seq<u8>, ArxError>(out@[j].data@),
        decreases index.by_path@.len() - i,
    {
        let (p, e) = &index.by_path[i];
        let data = match entry_content(delta, key, salt, e) {
            Ok(d) => d,
            Err(err) => {
                assert(spec_entry_content(delta@, *key, salt@, index.by_path@[i as int].1.view()) == Err::<
                    Seq<u8>,
                    ArxError,
                >(err));
                return Err(err);
            },
        };
        out.push(InputFile { path: p.clone(), mode: e.mode, mtime: e.mtime as i64, data });
        i = i + 1;
    }
    Ok(out)
}

} // verus!
