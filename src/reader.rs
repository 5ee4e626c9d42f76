//! Opening a container image: bound checks, region opening, chunk and file reads, and verify.
use vstd::prelude::*;
use crate::chunktab::{entry_decode, read_table_from_slice, table_decodes_to, ChunkEntry, ENTRY_SIZE};
use crate::codec::{copy_bytes, get_decoder_u8, spec_codec_of};
use crate::crypto::{aead_open, blake3_digest, blake3_of, opt_bytes, xchacha_open, AEAD_MAX_PLAIN, TAG_LEN};
use crate::error::{ArxError, FormatError};
use crate::manifest::ChunkRef;
use crate::superblock::{sb_read, Superblock, HEADER_LEN};
use crate::tail::{tail_magic, tail_magic_at, TailSummary, TAIL_LEN};
use crate::writer::{concat, derive_nonce, nonce_of, Region};

verus! {

/// Where the data region ends: before the tail summary when the image ends with one.
pub open spec fn data_end(img: Seq<u8>) -> int {
    if img.len() >= TAIL_LEN && img.subrange(img.len() - TAIL_LEN, img.len() as int) .subrange(0, 8)
        == tail_magic() {
        img.len() - TAIL_LEN
    } else {
        img.len() as int
    }
}

/// `HEADER_LEN + manifest_len <= chunk_table_off <= data_off <= end`.
pub open spec fn layout_ok(sb: Superblock, end: int) -> bool {
    HEADER_LEN + sb.manifest_len <= sb.chunk_table_off <= sb.data_off <= end
}

/// Whether the flags mark the container sealed.
pub open spec fn sealed(sb: Superblock) -> bool {
    sb.flags % 2 == 1
}

/// The plaintext of a region's bytes: opened with its nonce and label when sealed.
pub open spec fn open_region(
    key: Option<[u8; 32]>,
    salt: Seq<u8>,
    region: Region,
    counter: u64,
    bytes: Seq<u8>,
) -> Option<Seq<u8>> {
    match key {
        Some(k) => if bytes.len() > AEAD_MAX_PLAIN + TAG_LEN {
            None
        } else {
            xchacha_open(k@, nonce_of(salt, region, counter), region.spec_label(), bytes)
        },
        None => Some(bytes),
    }
}

/// Whether an entry's bytes lie inside `[data_off, end)`.
pub open spec fn entry_in_bounds(e: ChunkEntry, data_off: u64, end: int) -> bool {
    e.data_off >= data_off && e.data_off + e.c_size <= end
}

/// The key a container is read with: the caller's key when the flags say it is sealed.
pub open spec fn key_for(sb: Superblock, key: Option<[u8; 32]>) -> Option<[u8; 32]> {
    if sealed(sb) {
        key
    } else {
        None
    }
}

/// The view of an opened container.
pub struct OpenedView {
    pub sb: Superblock,
    pub end: int,
    pub manifest_plain: Seq<u8>,
    pub table_plain: Seq<u8>,
}

/// What opening an image gives, step by step: the superblock, the data end, the bound checks,
/// the key, the manifest and chunk-table regions, the table size, and each chunk's bounds.
pub open spec fn spec_open(img: Seq<u8>, key: Option<[u8; 32]>, salt: [u8; 32]) -> Result<
    OpenedView,
    ArxError,
> {
    match sb_read(img) {
        Err(e) => Err(e),
        Ok(sb) => {
            let end = data_end(img);
            let k = key_for(sb, key);
            if !layout_ok(sb, end) {
                Err(ArxError::Format(FormatError::BadLayout))
            } else if sealed(sb) && key is None {
                Err(ArxError::Format(FormatError::KeyRequired))
            } else {
                let mbytes = img.subrange(HEADER_LEN as int, HEADER_LEN + sb.manifest_len);
                let tbytes = img.subrange(sb.chunk_table_off as int, sb.data_off as int);
                match (
                    open_region(k, salt@, Region::Manifest, 0, mbytes),
                    open_region(k, salt@, Region::ChunkTable, 0, tbytes),
                ) {
                    (Some(mp), Some(tp)) => if tp.len() != sb.chunk_count * ENTRY_SIZE {
                        Err(ArxError::Format(FormatError::TableSizeMismatch))
                    } else if exists|i: int|
                        0 <= i < sb.chunk_count && !entry_in_bounds(
                            #[trigger] entry_decode(tp.subrange(i * 32, i * 32 + 32)),
                            sb.data_off,
                            end,
                        ) {
                        Err(ArxError::Format(FormatError::ChunkOutOfBounds))
                    } else {
                        Ok(OpenedView { sb, end, manifest_plain: mp, table_plain: tp })
                    },
                    _ => Err(ArxError::Format(FormatError::AuthFailed)),
                }
            }
        },
    }
}

/// An opened container: its superblock, manifest plaintext and chunk table.
#[derive(Debug, Clone)]
pub struct Opened {
    pub sb: Superblock,
    /// The manifest's CBOR plaintext.
    pub manifest_plain: Vec<u8>,
    /// The chunk table's plaintext, as stored.
    pub table_plain: Vec<u8>,
    pub table: Vec<ChunkEntry>,
    /// The key and salt, when the container is sealed.
    pub aead: Option<([u8; 32], [u8; 32])>,
    pub file_end_for_data: u64,
}

impl Opened {
    /// The key that the chunk regions are opened with.
    pub open spec fn spec_key(&self) -> Option<[u8; 32]> {
        match self.aead {
            Some((k, _)) => Some(k),
            None => None,
        }
    }

    pub open spec fn spec_salt(&self) -> Seq<u8> {
        match self.aead {
            Some((_, s)) => s@,
            None => Seq::empty(),
        }
    }

    /// The opened container agrees with the image: every entry lies in the data region.
    pub open spec fn wf(&self, img: Seq<u8>) -> bool {
        &&& self.file_end_for_data <= img.len()
        &&& self.table@.len() == self.sb.chunk_count
        &&& forall|i: int|
            0 <= i < self.table@.len() ==> entry_in_bounds(
                #[trigger] self.table@[i],
                self.sb.data_off,
                self.file_end_for_data as int,
            )
    }

    /// Opens the image of a container; `aead_key` is needed only when it is sealed.
    #[verifier::loop_isolation(false)]
    pub fn open(img: &[u8], aead_key: Option<[u8; 32]>, key_salt: [u8; 32]) -> (r: Result<Opened, ArxError>)
        ensures
            match spec_open(img@, aead_key, key_salt) {
                Err(e) => r == Err::<Opened, ArxError>(e),
                Ok(v) => r matches Ok(o) && {
                    &&& o.sb == v.sb
                    &&& o.file_end_for_data == v.end
                    &&& o.manifest_plain@ == v.manifest_plain
                    &&& o.table_plain@ == v.table_plain
                    &&& table_decodes_to(v.table_plain, v.sb.chunk_count as nat, o.table@)
                    &&& o.aead == (if sealed(v.sb) {
                        Some((aead_key->0, key_salt))
                    } else {
                        None
                    })
                    &&& o.wf(img@)
                },
            },
    {
        let sb = match Superblock::read_from(img) {
            Ok(sb) => sb,
            Err(e) => {
                return Err(e);
            },
        };
        let len = img.len();
        let mut end: u64 = len as u64;
        if len as u64 >= TAIL_LEN && tail_magic_at(img, len - 120) {
            end = len as u64 - TAIL_LEN;
        }
        proof {
            let t = img@.subrange(img@.len() - TAIL_LEN, img@.len() as int);
            if img@.len() >= TAIL_LEN {
                assert(t.subrange(0, 8) =~= img@.subrange(img@.len() - 120, img@.len() - 112));
            }
        }
        assert(end == data_end(img@));
        if !(HEADER_LEN as u128 + sb.manifest_len as u128 <= sb.chunk_table_off as u128
            && sb.chunk_table_off <= sb.data_off && sb.data_off <= end) {
            return Err(ArxError::Format(FormatError::BadLayout));
        }
        let is_sealed = sb.flags % 2 == 1;
        let k: Option<[u8; 32]> = if is_sealed {
            aead_key
        } else {
            None
        };
        if is_sealed && aead_key.is_none() {
            return Err(ArxError::Format(FormatError::KeyRequired));
        }
        let mstart: usize = HEADER_LEN as usize;
        let mend: usize = (HEADER_LEN + sb.manifest_len) as usize;
        let mp = open_region_bytes(&k, &key_salt, Region::Manifest, 0, &img[mstart..mend]);
        let tp = open_region_bytes(
            &k,
            &key_salt,
            Region::ChunkTable,
            0,
            &img[sb.chunk_table_off as usize..sb.data_off as usize],
        );
        let (mp, tp) = match (mp, tp) {
            (Some(mp), Some(tp)) => (mp, tp),
            _ => {
                return Err(ArxError::Format(FormatError::AuthFailed));
            },
        };
        let table = match read_table_from_slice(tp.as_slice(), sb.chunk_count) {
            Ok(t) => t,
            Err(e) => {
                return Err(e);
            },
        };
        let mut i: usize = 0;
        while i < table.len()
            invariant
                i <= table@.len(),
                table_decodes_to(tp@, sb.chunk_count as nat, table@),
                forall|j: int|
                    0 <= j < i ==> entry_in_bounds(#[trigger] table@[j], sb.data_off, end as int),
            decreases table@.len() - i,
        {
            let e = table[i];
            if e.data_off < sb.data_off || e.data_off as u128 + e.c_size as u128 > end as u128 {
                proof {
                    assert(table@[i as int] == entry_decode(tp@.subrange(i * 32, i * 32 + 32)));
                    let ii = i as int;
                    assert(0 <= ii < sb.chunk_count);
                    assert(!entry_in_bounds(entry_decode(tp@.subrange(ii * 32, ii * 32 + 32)), sb.data_off, end as int));
                    assert(exists|j: int|
                        0 <= j < sb.chunk_count && !entry_in_bounds(
                            #[trigger] entry_decode(tp@.subrange(j * 32, j * 32 + 32)),
                            sb.data_off,
                            end as int,
                        ));
                }
                return Err(ArxError::Format(FormatError::ChunkOutOfBounds));
            }
            i = i + 1;
        }
        proof {
            assert forall|j: int| 0 <= j < sb.chunk_count implies entry_in_bounds(
                #[trigger] entry_decode(tp@.subrange(j * 32, j * 32 + 32)),
                sb.data_off,
                end as int,
            ) by {
                assert(table@[j] == entry_decode(tp@.subrange(j * 32, j * 32 + 32)));
            }
        }
        let aead = if is_sealed {
            match aead_key {
                Some(key) => Some((key, key_salt)),
                None => None,
            }
        } else {
            None
        };
        Ok(Opened { sb, manifest_plain: mp, table_plain: tp, table, aead, file_end_for_data: end })
    }
}

/// Opens a region's bytes, or copies them when there is no key.
pub fn open_region_bytes(key: &Option<[u8; 32]>, salt: &[u8; 32], region: Region, counter: u64, bytes: &[u8]) -> (r:
    Option<Vec<u8>>)
    ensures
        opt_bytes(r) == open_region(*key, salt@, region, counter, bytes@),
        forall|m: Seq<u8>|
            #![trigger crate::writer::region_bytes(*key, salt@, region, counter, m)]
            m.len() <= AEAD_MAX_PLAIN && bytes@.len() <= AEAD_MAX_PLAIN + TAG_LEN && bytes@
                == crate::writer::region_bytes(*key, salt@, region, counter, m) ==> opt_bytes(r) == Some(m),
{
    match key {
        Some(k) => {
            if bytes.len() as u64 > AEAD_MAX_PLAIN + TAG_LEN {
                return None;
            }
            let nonce = derive_nonce(salt, region, counter);
            let label = region.label();
            aead_open(k, &nonce, label.as_slice(), bytes)
        },
        None => Some(copy_bytes(bytes)),
    }
}

/// The entries that a chunk-table plaintext of `count` entries denotes.
pub open spec fn entries_of(tp: Seq<u8>, count: nat) -> Seq<ChunkEntry> {
    Seq::new(count, |i: int| entry_decode(tp.subrange(i * 32, i * 32 + 32)))
}

/// The stored bytes of an entry.
pub open spec fn entry_bytes(img: Seq<u8>, e: ChunkEntry) -> Seq<u8> {
    img.subrange(e.data_off as int, e.data_off + e.c_size)
}

/// The post-compression plaintext of chunk `id` of an opened container.
pub open spec fn spec_payload(o: Opened, img: Seq<u8>, id: int) -> Option<Seq<u8>> {
    open_region(o.spec_key(), o.spec_salt(), Region::ChunkData, id as u64, entry_bytes(img, o.table@[id]))
}

/// The uncompressed content of chunk `id`.
pub open spec fn spec_chunk(o: Opened, img: Seq<u8>, id: int) -> Result<Seq<u8>, ArxError> {
    if !(0 <= id < o.table@.len()) {
        Err(ArxError::Format(FormatError::UnknownChunk))
    } else {
        match spec_payload(o, img, id) {
            None => Err(ArxError::Format(FormatError::AuthFailed)),
            Some(p) => match spec_codec_of(o.table@[id].codec) {
                None => Err(ArxError::Format(FormatError::UnknownCodec)),
                Some(c) => match c.spec_decode(p) {
                    None => Err(ArxError::Format(FormatError::CorruptChunk)),
                    Some(plain) => Ok(plain),
                },
            },
        }
    }
}

/// The content of a file: its chunks in order, or the first error among them.
pub open spec fn spec_content(o: Opened, img: Seq<u8>, refs: Seq<ChunkRef>) -> Result<Seq<u8>, ArxError>
    decreases refs.len(),
{
    if refs.len() == 0 {
        Ok(Seq::empty())
    } else {
        match spec_content(o, img, refs.drop_last()) {
            Err(e) => Err(e),
            Ok(prefix) => match spec_chunk(o, img, refs.last().id as int) {
                Err(e) => Err(e),
                Ok(c) => Ok(prefix + c),
            },
        }
    }
}

/// The content of a file that should hold `u_size` bytes.
pub open spec fn spec_file(o: Opened, img: Seq<u8>, refs: Seq<ChunkRef>, u_size: u64) -> Result<Seq<u8>, ArxError> {
    match spec_content(o, img, refs) {
        Err(e) => Err(e),
        Ok(c) => if c.len() == u_size {
            Ok(c)
        } else {
            Err(ArxError::Format(FormatError::SizeMismatch))
        },
    }
}

pub open spec fn res_bytes(r: Result<Vec<u8>, ArxError>) -> Result<Seq<u8>, ArxError> {
    match r {
        Ok(v) => Ok(v@),
        Err(e) => Err(e),
    }
}

/// Whether chunk `id` of an opened image stores content `m`: encoded by its codec, then sealed
/// when the container is.
pub open spec fn chunk_holds(o: Opened, img: Seq<u8>, id: int, m: Seq<u8>) -> bool {
    &&& 0 <= id < o.table@.len()
    &&& spec_codec_of(o.table@[id].codec) is Some
    &&& spec_codec_of(o.table@[id].codec)->0.spec_encode(m).len() <= AEAD_MAX_PLAIN
    &&& entry_bytes(img, o.table@[id]).len() <= AEAD_MAX_PLAIN + TAG_LEN
    &&& entry_bytes(img, o.table@[id]) == crate::writer::region_bytes(
        o.spec_key(),
        o.spec_salt(),
        Region::ChunkData,
        id as u64,
        spec_codec_of(o.table@[id].codec)->0.spec_encode(m),
    )
}

impl Opened {
    /// The post-compression plaintext of chunk `id`: its stored bytes, opened when sealed.
    pub fn chunk_payload(&self, img: &[u8], id: usize) -> (r: Result<Vec<u8>, ArxError>)
        requires
            self.wf(img@),
            id < self.table@.len(),
        ensures
            match spec_payload(*self, img@, id as int) {
                Some(p) => r matches Ok(v) && v@ == p,
                None => r == Err::<Vec<u8>, ArxError>(ArxError::Format(FormatError::AuthFailed)),
            },
        forall|p: Seq<u8>|
            #![trigger crate::writer::region_bytes(self.spec_key(), self.spec_salt(), Region::ChunkData, id as u64, p)]
            p.len() <= AEAD_MAX_PLAIN && entry_bytes(img@, self.table@[id as int]).len() <= AEAD_MAX_PLAIN + TAG_LEN
                && entry_bytes(img@, self.table@[id as int]) == crate::writer::region_bytes(
                self.spec_key(),
                self.spec_salt(),
                Region::ChunkData,
                id as u64,
                p,
            ) ==> (r matches Ok(v) && v@ == p),
    {
        let e = self.table[id];
        assert(entry_in_bounds(self.table@[id as int], self.sb.data_off, self.file_end_for_data as int));
        assert(img@.len() == img.len());
        let bytes = &img[e.data_off as usize..(e.data_off + e.c_size) as usize];
        let (key, salt): (Option<[u8; 32]>, [u8; 32]) = match self.aead {
            Some((k, s)) => (Some(k), s),
            None => (None, [0u8; 32]),
        };
        match open_region_bytes(&key, &salt, Region::ChunkData, id as u64, bytes) {
            Some(p) => Ok(p),
            None => Err(ArxError::Format(FormatError::AuthFailed)),
        }
    }

    /// The uncompressed content of chunk `id`.
    pub fn read_chunk(&self, img: &[u8], id: u64) -> (r: Result<Vec<u8>, ArxError>)
        requires
            self.wf(img@),
        ensures
            res_bytes(r) == spec_chunk(*self, img@, id as int),
            forall|m: Seq<u8>| #![trigger chunk_holds(*self, img@, id as int, m)]
                chunk_holds(*self, img@, id as int, m) ==> res_bytes(r) == Ok::<Seq<u8>, ArxError>(m),
    {
        if id >= self.table.len() as u64 {
            return Err(ArxError::Format(FormatError::UnknownChunk));
        }
        let payload = match self.chunk_payload(img, id as usize) {
            Ok(p) => p,
            Err(e) => {
                return Err(e);
            },
        };
        let codec = match get_decoder_u8(self.table[id as usize].codec) {
            Ok(c) => c,
            Err(e) => {
                return Err(e);
            },
        };
        match codec.decode(payload.as_slice()) {
            Some(plain) => Ok(plain),
            None => Err(ArxError::Format(FormatError::CorruptChunk)),
        }
    }

    /// The content of a file: its chunks in order, checked against the recorded size.
    pub fn read_file(&self, img: &[u8], refs: &[ChunkRef], u_size: u64) -> (r: Result<Vec<u8>, ArxError>)
        requires
            self.wf(img@),
        ensures
            res_bytes(r) == spec_file(*self, img@, refs@, u_size),
            forall|ms: Seq<Seq<u8>>| #![trigger file_holds(*self, img@, refs@, ms)]
                file_holds(*self, img@, refs@, ms) && crate::writer::concat(ms).len() == u_size ==> res_bytes(r)
                    == Ok::<Seq<u8>, ArxError>(crate::writer::concat(ms)),
    {
        let mut out: Vec<u8> = Vec::new();
        let mut i: usize = 0;
        assert(refs@.subrange(0, 0) =~= Seq::<ChunkRef>::empty());
        while i < refs.len()
            invariant
                self.wf(img@),
                i <= refs@.len(),
                spec_content(*self, img@, refs@.subrange(0, i as int)) == Ok::<Seq<u8>, ArxError>(out@),
                forall|j: int, m: Seq<u8>|
                    0 <= j < i && #[trigger] chunk_holds(*self, img@, refs@[j].id as int, m) ==> spec_chunk(
                        *self,
                        img@,
                        refs@[j].id as int,
                    ) == Ok::<Seq<u8>, ArxError>(m),
            decreases refs@.len() - i,
        {
            let c = self.read_chunk(img, refs[i].id);
            proof {
                assert forall|j: int, m: Seq<u8>|
                    0 <= j < i + 1 && #[trigger] chunk_holds(*self, img@, refs@[j].id as int, m) implies spec_chunk(
                        *self,
                        img@,
                        refs@[j].id as int,
                    ) == Ok::<Seq<u8>, ArxError>(m) by {}
                if c is Err {
                    assert forall|ms: Seq<Seq<u8>>| #[trigger] file_holds(*self, img@, refs@, ms) implies false by {
                        assert(chunk_holds(*self, img@, refs@[i as int].id as int, ms[i as int]));
                    }
                }
            }
            proof {
                let pre = refs@.subrange(0, i + 1);
                assert(pre.drop_last() =~= refs@.subrange(0, i as int));
                assert(pre.last() == refs@[i as int]);
            }
            match c {
                Ok(c) => {
                    let ghost prev = out@;
                    out.extend_from_slice(c.as_slice());
                    assert(out@ =~= prev + c@);
                    assert(spec_content(*self, img@, refs@.subrange(0, i + 1)) == Ok::<Seq<u8>, ArxError>(prev + c@));
                },
                Err(e) => {
                    proof {
                        lemma_content_err_sticks(*self, img@, refs@, i + 1);
                    }
                    return Err(e);
                },
            }
            i = i + 1;
        }
        assert(refs@.subrange(0, i as int) =~= refs@);
        proof {
            assert forall|ms: Seq<Seq<u8>>| #[trigger] file_holds(*self, img@, refs@, ms) implies out@
                == crate::writer::concat(ms) by {
                lemma_content_of_holding(*self, img@, refs@, ms);
            }
        }
        if out.len() as u64 != u_size {
            return Err(ArxError::Format(FormatError::SizeMismatch));
        }
        Ok(out)
    }
}

/// Whether each chunk a file refers to stores its part of `ms`.
pub open spec fn file_holds(o: Opened, img: Seq<u8>, refs: Seq<ChunkRef>, ms: Seq<Seq<u8>>) -> bool {
    &&& ms.len() == refs.len()
    &&& forall|i: int| 0 <= i < refs.len() ==> chunk_holds(o, img, (#[trigger] refs[i]).id as int, ms[i])
}

/// When every chunk reads as its part, the file reads as the parts put together.
proof fn lemma_content_of_holding(o: Opened, img: Seq<u8>, refs: Seq<ChunkRef>, ms: Seq<Seq<u8>>)
    requires
        ms.len() == refs.len(),
        forall|i: int| 0 <= i < refs.len() ==> spec_chunk(o, img, (#[trigger] refs[i]).id as int) == Ok::<
            Seq<u8>,
            ArxError,
        >(ms[i]),
    ensures
        spec_content(o, img, refs) == Ok::<Seq<u8>, ArxError>(crate::writer::concat(ms)),
    decreases refs.len(),
{
    if refs.len() > 0 {
        let r1 = refs.drop_last();
        let m1 = ms.drop_last();
        assert forall|i: int| 0 <= i < r1.len() implies spec_chunk(o, img, (#[trigger] r1[i]).id as int) == Ok::<
            Seq<u8>,
            ArxError,
        >(m1[i]) by {
            assert(r1[i] == refs[i]);
        }
        lemma_content_of_holding(o, img, r1, m1);
        assert(spec_chunk(o, img, refs[refs.len() - 1].id as int) == Ok::<Seq<u8>, ArxError>(ms[ms.len() - 1]));
    } else {
        assert(ms =~= Seq::<Seq<u8>>::empty());
    }
}

/// Once a prefix of the references fails, the whole list fails with the same error.
proof fn lemma_content_err_sticks(o: Opened, img: Seq<u8>, refs: Seq<ChunkRef>, i: int)
    requires
        0 <= i <= refs.len(),
        spec_content(o, img, refs.subrange(0, i)) is Err,
    ensures
        spec_content(o, img, refs) == spec_content(o, img, refs.subrange(0, i)),
    decreases refs.len() - i,
{
    if i < refs.len() {
        let next = refs.subrange(0, i + 1);
        assert(next.drop_last() =~= refs.subrange(0, i));
        lemma_content_err_sticks(o, img, refs, i + 1);
    } else {
        assert(refs.subrange(0, i) =~= refs);
    }
}

/// The post-compression plaintexts of all chunks of an opened image, `None` where opening fails.
pub open spec fn all_payloads(img: Seq<u8>, k: Option<[u8; 32]>, salt: Seq<u8>, es: Seq<ChunkEntry>) -> Seq<
    Option<Seq<u8>>,
> {
    Seq::new(es.len(), |i: int| open_region(k, salt, Region::ChunkData, i as u64, entry_bytes(img, es[i])))
}

pub open spec fn unwrap_all(ps: Seq<Option<Seq<u8>>>) -> Seq<Seq<u8>> {
    Seq::new(ps.len(), |i: int| ps[i]->0)
}

/// What verifying an image gives: it opens; it has a tail; every chunk opens; and the tail's
/// digests of the manifest, chunk-table and concatenated chunk plaintexts, and its two totals,
/// match what was read.
pub open spec fn spec_verify(img: Seq<u8>, key: Option<[u8; 32]>, salt: [u8; 32]) -> Result<(), ArxError> {
    match spec_open(img, key, salt) {
        Err(e) => Err(e),
        Ok(v) => if v.end == img.len() {
            Err(ArxError::Format(FormatError::NoTail))
        } else {
            let es = entries_of(v.table_plain, v.sb.chunk_count as nat);
            let ps = all_payloads(img, key_for(v.sb, key), salt@, es);
            if exists|i: int| 0 <= i < ps.len() && #[trigger] ps[i] is None {
                Err(ArxError::Format(FormatError::AuthFailed))
            } else {
                let pv = unwrap_all(ps);
                let t = img.subrange(img.len() - TAIL_LEN, img.len() as int);
                if blake3_of(v.manifest_plain) == t.subrange(8, 40) && blake3_of(v.table_plain)
                    == t.subrange(40, 72) && blake3_of(concat(pv)) == t.subrange(72, 104)
                    && crate::writer::sat_sum_u(es) as nat == crate::le::le_val(t.subrange(104, 112))
                    && crate::writer::sat_sum_len(pv) as nat == crate::le::le_val(t.subrange(112, 120)) {
                    Ok(())
                } else {
                    Err(ArxError::Format(FormatError::VerifyMismatch))
                }
            }
        },
    }
}

/// Recomputes the region digests and totals of an image and compares them with its tail.
#[verifier::loop_isolation(false)]
pub fn verify(img: &[u8], aead_key: Option<[u8; 32]>, key_salt: [u8; 32]) -> (r: Result<(), ArxError>)
    ensures
        r == spec_verify(img@, aead_key, key_salt),
{
    let o = match Opened::open(img, aead_key, key_salt) {
        Ok(o) => o,
        Err(e) => {
            return Err(e);
        },
    };
    let ghost v = spec_open(img@, aead_key, key_salt)->Ok_0;
    let len = img.len();
    if o.file_end_for_data == len as u64 {
        return Err(ArxError::Format(FormatError::NoTail));
    }
    let tb = &img[len - 120..len];
    proof {
        assert(tb@.subrange(0, 8) =~= img@.subrange(len - 120, len as int).subrange(0, 8));
    }
    let tail = match TailSummary::read_from(tb) {
        Ok(t) => t,
        Err(e) => {
            return Err(e);
        },
    };
    let ghost es = entries_of(v.table_plain, v.sb.chunk_count as nat);
    let ghost ps = all_payloads(img@, key_for(v.sb, aead_key), key_salt@, es);
    assert(o.table@ =~= es);
    let mut all: Vec<u8> = Vec::new();
    let mut total_u: u64 = 0;
    let mut total_c: u64 = 0;
    let mut id: usize = 0;
    while id < o.table.len()
        invariant
            id <= o.table@.len(),
            forall|j: int| 0 <= j < id ==> #[trigger] ps[j] is Some,
            all@ == concat(unwrap_all(ps).subrange(0, id as int)),
            total_u == crate::writer::sat_sum_u(es.subrange(0, id as int)),
            total_c == crate::writer::sat_sum_len(unwrap_all(ps).subrange(0, id as int)),
        decreases o.table@.len() - id,
    {
        assert(spec_payload(o, img@, id as int) == ps[id as int]);
        let p = match o.chunk_payload(img, id) {
            Ok(p) => p,
            Err(e) => {
                assert(ps[id as int] is None);
                return Err(e);
            },
        };
        let ghost prev = all@;
        all.extend_from_slice(p.as_slice());
        total_u = total_u.saturating_add(o.table[id].u_size);
        total_c = total_c.saturating_add(p.len() as u64);
        proof {
            let pv = unwrap_all(ps);
            assert(pv[id as int] == p@);
            assert(pv.subrange(0, id + 1).drop_last() =~= pv.subrange(0, id as int));
            assert(es.subrange(0, id + 1).drop_last() =~= es.subrange(0, id as int));
            assert(all@ =~= prev + p@);
        }
        id = id + 1;
    }
    proof {
        assert(unwrap_all(ps).subrange(0, id as int) =~= unwrap_all(ps));
        assert(es.subrange(0, id as int) =~= es);
    }
    let mh = blake3_digest(o.manifest_plain.as_slice());
    let th = blake3_digest(o.table_plain.as_slice());
    let dh = blake3_digest(all.as_slice());
    if crate::plan::eq32(&tail.manifest_blake3, &mh) && crate::plan::eq32(&tail.chunktab_blake3, &th)
        && crate::plan::eq32(&tail.data_blake3, &dh) && tail.total_u == total_u && tail.total_c == total_c {
        Ok(())
    } else {
        Err(ArxError::Format(FormatError::VerifyMismatch))
    }
}

/// The stored bytes of a file's chunks, or the first reference to no entry.
pub open spec fn spec_c_sum(table: Seq<ChunkEntry>, refs: Seq<ChunkRef>) -> Result<int, ArxError>
    decreases refs.len(),
{
    if refs.len() == 0 {
        Ok(0)
    } else {
        match spec_c_sum(table, refs.drop_last()) {
            Err(e) => Err(e),
            Ok(s) => if refs.last().id >= table.len() {
                Err(ArxError::Format(FormatError::UnknownChunk))
            } else {
                Ok(s + table[refs.last().id as int].c_size)
            },
        }
    }
}

proof fn lemma_c_sum_err_sticks(table: Seq<ChunkEntry>, refs: Seq<ChunkRef>, i: int)
    requires
        0 <= i <= refs.len(),
        spec_c_sum(table, refs.subrange(0, i)) is Err,
    ensures
        spec_c_sum(table, refs) == spec_c_sum(table, refs.subrange(0, i)),
    decreases refs.len() - i,
{
    if i < refs.len() {
        assert(refs.subrange(0, i + 1).drop_last() =~= refs.subrange(0, i));
        lemma_c_sum_err_sticks(table, refs, i + 1);
    } else {
        assert(refs.subrange(0, i) =~= refs);
    }
}

impl Opened {
    /// The bytes a file's chunks take in the data region, as `list` reports them.
    pub fn compressed_size(&self, refs: &[ChunkRef]) -> (r: Result<u64, ArxError>)
        ensures
            match spec_c_sum(self.table@, refs@) {
                Err(e) => r == Err::<u64, ArxError>(e),
                Ok(s) => if s > u64::MAX {
                    r == Err::<u64, ArxError>(ArxError::Format(FormatError::Overflow))
                } else {
                    r == Ok::<u64, ArxError>(s as u64)
                },
            },
    {
        let mut acc: u128 = 0;
        let mut i: usize = 0;
        assert(refs@.subrange(0, 0) =~= Seq::<ChunkRef>::empty());
        while i < refs.len()
            invariant
                i <= refs@.len(),
                spec_c_sum(self.table@, refs@.subrange(0, i as int)) == Ok::<int, ArxError>(acc as int),
                acc <= i * 0xffff_ffff_ffff_ffffu128,
            decreases refs@.len() - i,
        {
            let id = refs[i].id;
            assert(refs@.subrange(0, i + 1).drop_last() =~= refs@.subrange(0, i as int));
            if id >= self.table.len() as u64 {
                proof {
                    lemma_c_sum_err_sticks(self.table@, refs@, i + 1);
                }
                return Err(ArxError::Format(FormatError::UnknownChunk));
            }
            acc = acc + self.table[id as usize].c_size as u128;
            i = i + 1;
        }
        assert(refs@.subrange(0, i as int) =~= refs@);
        if acc > 0xffff_ffff_ffff_ffffu128 {
            return Err(ArxError::Format(FormatError::Overflow));
        }
        Ok(acc as u64)
    }
}

/// Where a range that starts at `start` and holds at most `len` bytes (all the rest when `len` is
/// `None`) begins and ends in content of `n` bytes.
pub open spec fn range_bounds(n: int, start: u64, len: Option<u64>) -> (int, int) {
    let from = if start < n { start as int } else { n };
    let to = match len {
        Some(l) => if from + l < n { from + l } else { n },
        None => n,
    };
    (from, to)
}

/// The bytes of `content` in the range from `start` of at most `len` bytes.
pub fn byte_range(content: &[u8], start: u64, len: Option<u64>) -> (r: Vec<u8>)
    ensures
        r@ == content@.subrange(
            range_bounds(content@.len() as int, start, len).0,
            range_bounds(content@.len() as int, start, len).1,
        ),
{
    let n = content.len();
    let from: usize = if (start as u128) < (n as u128) { start as usize } else { n };
    let to: usize = match len {
        Some(l) => if (from as u128) + (l as u128) < (n as u128) { from + l as usize } else { n },
        None => n,
    };
    crate::codec::copy_bytes(&content[from..to])
}

} // verus!
