//! The overlay sidecars: the journal (length-prefixed records after a 42-byte header) and the
//! delta store (length-prefixed frames), each optionally sealed with its own nonce scheme.
use vstd::prelude::*;
use crate::codec::copy_bytes;
use crate::crypto::{aead_open, aead_seal, blake3_digest, blake3_of, xchacha_open, xchacha_seal, AEAD_MAX_PLAIN, TAG_LEN};
use crate::error::{ArxError, FormatError};
use crate::le::{le_enc, lemma_pow256_8, put_le};
use crate::varint::{get_uvarint, put_uvarint, uvarint, uvarint_len, varint_at, VarintRead};

verus! {

pub const JOURNAL_HEADER_LEN: u64 = 42;

pub const JOURNAL_VERSION: u8 = 1;

/// Bit 0 of the journal flags: records are AEAD-sealed.
pub const FLAG_AEAD: u8 = 1;

/// How a sidecar is written: plain, or sealed under a key with a salt.
#[derive(Debug, Clone, Copy)]
pub enum EncMode {
    Plain,
    Aead { key: [u8; 32], salt: [u8; 32] },
}

/// Which sidecar a frame belongs to; each has its own nonce label.
#[derive(Debug, Clone, Copy, PartialEq, Eq, Structural)]
pub enum Sidecar {
    Journal,
    Delta,
}

impl Sidecar {
    /// `"arxlog"` or `"arxdelta"`.
    pub open spec fn spec_label(self) -> Seq<u8> {
        match self {
            Sidecar::Journal => seq![97u8, 114u8, 120u8, 108u8, 111u8, 103u8],
            Sidecar::Delta => seq![97u8, 114u8, 120u8, 100u8, 101u8, 108u8, 116u8, 97u8],
        }
    }
}

/// `"ARXLOG\0\0"`.
pub open spec fn journal_magic() -> Seq<u8> {
    seq![65u8, 82u8, 88u8, 76u8, 79u8, 71u8, 0u8, 0u8]
}

/// `blake3(label ++ salt ++ payload_off_le64 ++ cipher_len_le64)[..24]`.
pub open spec fn sidecar_nonce(sc: Sidecar, salt: Seq<u8>, payload_off: u64, cipher_len: u64) -> Seq<u8> {
    blake3_of(sc.spec_label() + salt + le_enc(payload_off as nat, 8) + le_enc(cipher_len as nat, 8)).subrange(0, 24)
}

/// Derives the nonce of a sidecar payload at `payload_off` of `cipher_len` bytes.
pub fn derive_sidecar_nonce(sc: Sidecar, salt: &[u8; 32], payload_off: u64, cipher_len: u64) -> (r: [u8; 24])
    ensures
        r@ == sidecar_nonce(sc, salt@, payload_off, cipher_len),
{
    proof {
        lemma_pow256_8();
    }
    let mut input: Vec<u8> = Vec::new();
    input.push(97u8);
    input.push(114u8);
    input.push(120u8);
    match sc {
        Sidecar::Journal => {
            input.push(108u8);
            input.push(111u8);
            input.push(103u8);
        },
        Sidecar::Delta => {
            input.push(100u8);
            input.push(101u8);
            input.push(108u8);
            input.push(116u8);
            input.push(97u8);
        },
    }
    assert(input@ =~= sc.spec_label());
    crate::tail::push_bytes32(&mut input, salt);
    put_le(&mut input, payload_off, 8);
    put_le(&mut input, cipher_len, 8);
    assert(input@ =~= sc.spec_label() + salt@ + le_enc(payload_off as nat, 8) + le_enc(cipher_len as nat, 8));
    let d = blake3_digest(input.as_slice());
    let mut n: [u8; 24] = [0u8; 24];
    let mut i: usize = 0;
    while i < 24
        invariant
            i <= 24,
            n@.len() == 24,
            d@.len() == 32,
            forall|j: int| 0 <= j < i ==> n@[j] == d@[j],
        decreases 24 - i,
    {
        n[i] = d[i];
        i = i + 1;
    }
    assert(n@ =~= d@.subrange(0, 24));
    n
}

/// The stored form of a payload that starts at `payload_off`: sealed with no associated data.
pub open spec fn sealed_payload(key: Option<[u8; 32]>, salt: Seq<u8>, sc: Sidecar, payload_off: u64, plain: Seq<u8>) -> Seq<u8> {
    match key {
        Some(k) => xchacha_seal(k@, sidecar_nonce(sc, salt, payload_off, (plain.len() + TAG_LEN) as u64), Seq::empty(), plain),
        None => plain,
    }
}

/// The plaintext of a stored payload.
pub open spec fn opened_payload(key: Option<[u8; 32]>, salt: Seq<u8>, sc: Sidecar, payload_off: u64, stored: Seq<u8>) -> Option<Seq<u8>> {
    match key {
        Some(k) => if stored.len() > AEAD_MAX_PLAIN + TAG_LEN {
            None
        } else {
            xchacha_open(k@, sidecar_nonce(sc, salt, payload_off, stored.len() as u64), Seq::empty(), stored)
        },
        None => Some(stored),
    }
}

/// A frame written at file offset `pos`: the varint length, then the stored payload.
#[derive(Debug, Clone)]
pub struct Frame {
    pub bytes: Vec<u8>,
    /// File offset of the payload, right after the varint.
    pub payload_off: u64,
    /// Length of the stored payload, tag included when sealed.
    pub len: u64,
}

/// Builds the frame of `plain` for a sidecar whose next byte is at file offset `pos`.
pub fn frame_at(key: &Option<[u8; 32]>, salt: &[u8; 32], sc: Sidecar, pos: u64, plain: &[u8]) -> (r: Result<Frame, ArxError>)
    requires
        plain@.len() <= AEAD_MAX_PLAIN,
    ensures
        match r {
            Ok(f) => {
                let stored = sealed_payload(*key, salt@, sc, f.payload_off, plain@);
                &&& f.len == stored.len()
                &&& f.payload_off == pos + uvarint(f.len as nat).len()
                &&& f.bytes@ == uvarint(f.len as nat) + stored
            },
            Err(e) => e == ArxError::Format(FormatError::Overflow),
        },
        r is Err <==> pos + 10 + plain@.len() + (if key.is_some() { TAG_LEN } else { 0 }) > u64::MAX,
        r matches Ok(f) ==> f.len == plain@.len() + (if key.is_some() { TAG_LEN } else { 0 }),
{
    let len: u64 = match key {
        Some(_) => plain.len() as u64 + TAG_LEN,
        None => plain.len() as u64,
    };
    let vl = uvarint_len(len);
    if pos > u64::MAX - 10 - len {
        return Err(ArxError::Format(FormatError::Overflow));
    }
    let payload_off = pos + vl as u64;
    let stored = match key {
        Some(k) => {
            let nonce = derive_sidecar_nonce(sc, salt, payload_off, len);
            let empty: Vec<u8> = Vec::new();
            assert(Seq::<u8>::empty() =~= empty@);
            match aead_seal(k, &nonce, empty.as_slice(), plain) {
                Some(c) => c,
                None => Vec::new(),
            }
        },
        None => copy_bytes(plain),
    };
    let mut bytes: Vec<u8> = Vec::new();
    put_uvarint(&mut bytes, len);
    let ghost head = bytes@;
    bytes.extend_from_slice(stored.as_slice());
    assert(bytes@ =~= head + stored@);
    Ok(Frame { bytes, payload_off, len })
}

/// What reading the record at `pos` gives: nothing at a clean or partial end, an error on a bad
/// varint or a payload that fails to open, else the plaintext and the next position.
pub open spec fn spec_next_record(file: Seq<u8>, pos: int, key: Option<[u8; 32]>, salt: Seq<u8>, sc: Sidecar) -> Result<
    Option<(Seq<u8>, int)>,
    ArxError,
> {
    match varint_at(file, pos) {
        VarintRead::Eof => Ok(None),
        VarintRead::TooLong => Err(ArxError::Format(FormatError::BadVarint)),
        VarintRead::Value(len, n) => {
            let start = pos + n;
            if start + len > file.len() {
                Ok(None)
            } else {
                match opened_payload(key, salt, sc, start as u64, file.subrange(start, start + len)) {
                    None => Err(ArxError::Format(FormatError::AuthFailed)),
                    Some(p) => Ok(Some((p, start + len))),
                }
            }
        },
    }
}

pub open spec fn res_record(r: Result<Option<(Vec<u8>, usize)>, ArxError>) -> Result<Option<(Seq<u8>, int)>, ArxError> {
    match r {
        Ok(Some((v, n))) => Ok(Some((v@, n as int))),
        Ok(None) => Ok(None),
        Err(e) => Err(e),
    }
}

/// Whether the record at `pos` is the frame of `m`: its varint gives the stored length, the whole
/// frame is there, and the stored bytes are `m` in their stored form.
pub open spec fn frame_holds(file: Seq<u8>, pos: int, key: Option<[u8; 32]>, salt: Seq<u8>, sc: Sidecar, m: Seq<u8>) -> bool {
    &&& varint_at(file, pos) matches VarintRead::Value(len, n)
    &&& len == m.len() + (if key.is_some() { TAG_LEN } else { 0 })
    &&& pos + n + len <= file.len()
    &&& file.subrange(pos + n, pos + n + len) == sealed_payload(key, salt, sc, (pos + n) as u64, m)
}

/// Where the record at `pos` ends, when its varint reads.
pub open spec fn record_end(file: Seq<u8>, pos: int) -> int {
    match varint_at(file, pos) {
        VarintRead::Value(len, n) => pos + n + len,
        _ => pos,
    }
}

/// Reads the record that starts at file offset `pos`.
pub fn next_record(file: &[u8], pos: usize, key: &Option<[u8; 32]>, salt: &[u8; 32], sc: Sidecar) -> (r: Result<
    Option<(Vec<u8>, usize)>,
    ArxError,
>)
    ensures
        res_record(r) == spec_next_record(file@, pos as int, *key, salt@, sc),
        forall|m: Seq<u8>|
            #![trigger frame_holds(file@, pos as int, *key, salt@, sc, m)]
            m.len() <= AEAD_MAX_PLAIN && frame_holds(file@, pos as int, *key, salt@, sc, m) ==> res_record(r)
                == Ok::<Option<(Seq<u8>, int)>, ArxError>(Some((m, record_end(file@, pos as int)))),
{
    match get_uvarint(file, pos) {
        VarintRead::Eof => Ok(None),
        VarintRead::TooLong => Err(ArxError::Format(FormatError::BadVarint)),
        VarintRead::Value(len, n) => {
            if pos as u128 + n as u128 + len as u128 > file.len() as u128 {
                return Ok(None);
            }
            let start: usize = pos + n;
            let end: usize = start + len as usize;
            let stored = &file[start..end];
            let opened = match key {
                Some(k) => {
                    if len > AEAD_MAX_PLAIN + TAG_LEN {
                        None
                    } else {
                        let nonce = derive_sidecar_nonce(sc, salt, start as u64, len);
                        let empty: Vec<u8> = Vec::new();
                        assert(Seq::<u8>::empty() =~= empty@);
                        aead_open(k, &nonce, empty.as_slice(), stored)
                    }
                },
                None => Some(copy_bytes(stored)),
            };
            match opened {
                Some(p) => Ok(Some((p, end))),
                None => Err(ArxError::Format(FormatError::AuthFailed)),
            }
        },
    }
}

/// Reads the delta frame payload at `off` of `len` bytes.
pub fn read_frame(file: &[u8], off: u64, len: u64, key: &Option<[u8; 32]>, salt: &[u8; 32]) -> (r: Result<Vec<u8>, ArxError>)
    ensures
        off + len > file@.len() ==> r == Err::<Vec<u8>, ArxError>(ArxError::Format(FormatError::ShortRead)),
        off + len <= file@.len() ==> match opened_payload(*key, salt@, Sidecar::Delta, off, file@.subrange(off as int, off + len)) {
            Some(p) => r matches Ok(v) && v@ == p,
            None => r == Err::<Vec<u8>, ArxError>(ArxError::Format(FormatError::AuthFailed)),
        },
        forall|m: Seq<u8>|
            #![trigger sealed_payload(*key, salt@, Sidecar::Delta, off, m)]
            m.len() <= AEAD_MAX_PLAIN && len == m.len() + (if key.is_some() { TAG_LEN } else { 0 }) && off + len
                <= file@.len() && file@.subrange(off as int, off + len) == sealed_payload(*key, salt@, Sidecar::Delta, off, m)
                ==> (r matches Ok(v) && v@ == m),
{
    if off as u128 + len as u128 > file.len() as u128 {
        return Err(ArxError::Format(FormatError::ShortRead));
    }
    let stored = &file[off as usize..(off + len) as usize];
    let opened = match key {
        Some(k) => {
            if len > AEAD_MAX_PLAIN + TAG_LEN {
                return Err(ArxError::Format(FormatError::AuthFailed));
            }
            let nonce = derive_sidecar_nonce(Sidecar::Delta, salt, off, len);
            let empty: Vec<u8> = Vec::new();
            assert(Seq::<u8>::empty() =~= empty@);
            aead_open(k, &nonce, empty.as_slice(), stored)
        },
        None => Some(copy_bytes(stored)),
    };
    match opened {
        Some(p) => Ok(p),
        None => Err(ArxError::Format(FormatError::AuthFailed)),
    }
}

/// The 42-byte header of a new journal.
pub open spec fn journal_header_bytes(enc: EncMode) -> Seq<u8> {
    match enc {
        EncMode::Plain => journal_magic() + seq![JOURNAL_VERSION, 0u8] + Seq::new(32, |i: int| 0u8),
        EncMode::Aead { salt, .. } => journal_magic() + seq![JOURNAL_VERSION, FLAG_AEAD] + salt@,
    }
}

/// The header a new journal starts with.
pub fn journal_header(enc: &EncMode) -> (r: Vec<u8>)
    ensures
        r@ == journal_header_bytes(*enc),
{
    let mut out: Vec<u8> = Vec::new();
    out.push(65u8);
    out.push(82u8);
    out.push(88u8);
    out.push(76u8);
    out.push(79u8);
    out.push(71u8);
    out.push(0u8);
    out.push(0u8);
    out.push(JOURNAL_VERSION);
    match enc {
        EncMode::Plain => {
            out.push(0u8);
            let zero: [u8; 32] = [0u8; 32];
            crate::tail::push_bytes32(&mut out, &zero);
            assert(zero@ =~= Seq::new(32, |i: int| 0u8));
        },
        EncMode::Aead { salt, .. } => {
            out.push(FLAG_AEAD);
            crate::tail::push_bytes32(&mut out, salt);
        },
    }
    assert(out@ =~= journal_header_bytes(*enc));
    out
}

/// The flags and salt of an existing journal, and where its records start.
#[derive(Debug, Clone, Copy)]
pub struct JournalHeader {
    pub flags: u8,
    pub salt: [u8; 32],
}

/// What reading a journal's header gives: the magic must match; a header that stops right after
/// the version byte is a plain legacy header; a journal marked sealed needs a key.
pub open spec fn spec_journal_header(file: Seq<u8>, enc: EncMode) -> Result<(u8, Seq<u8>), ArxError> {
    if file.len() < 8 {
        Err(ArxError::Format(FormatError::ShortRead))
    } else if file.subrange(0, 8) != journal_magic() {
        Err(ArxError::Format(FormatError::BadMagic))
    } else if file.len() < 9 {
        Err(ArxError::Format(FormatError::ShortRead))
    } else if file.len() == 9 {
        Ok((0u8, Seq::new(32, |i: int| 0u8)))
    } else if file.len() < JOURNAL_HEADER_LEN {
        Err(ArxError::Format(FormatError::ShortRead))
    } else if file[9] % 2 == 1 && enc is Plain {
        Err(ArxError::Format(FormatError::KeyRequired))
    } else {
        Ok((file[9], file.subrange(10, 42)))
    }
}

/// Reads the header of an existing journal.
pub fn parse_journal_header(file: &[u8], enc: &EncMode) -> (r: Result<JournalHeader, ArxError>)
    ensures
        match spec_journal_header(file@, *enc) {
            Ok((flags, salt)) => r matches Ok(h) && h.flags == flags && h.salt@ == salt,
            Err(e) => r matches Err(e2) && e2 == e,
        },
{
    if file.len() < 8 {
        return Err(ArxError::Format(FormatError::ShortRead));
    }
    let ok = file[0] == 65u8 && file[1] == 82u8 && file[2] == 88u8 && file[3] == 76u8 && file[4] == 79u8
        && file[5] == 71u8 && file[6] == 0u8 && file[7] == 0u8;
    proof {
        let s = file@.subrange(0, 8);
        if ok {
            assert(s =~= journal_magic());
        } else if s == journal_magic() {
            assert(s[0] == 65u8 && s[1] == 82u8 && s[2] == 88u8 && s[3] == 76u8);
            assert(s[4] == 79u8 && s[5] == 71u8 && s[6] == 0u8 && s[7] == 0u8);
        }
    }
    if !ok {
        return Err(ArxError::Format(FormatError::BadMagic));
    }
    if file.len() < 9 {
        return Err(ArxError::Format(FormatError::ShortRead));
    }
    if file.len() == 9 {
        let z: [u8; 32] = [0u8; 32];
        assert(z@ =~= Seq::new(32, |i: int| 0u8));
        return Ok(JournalHeader { flags: 0, salt: z });
    }
    if file.len() < 42 {
        return Err(ArxError::Format(FormatError::ShortRead));
    }
    let flags = file[9];
    let is_plain = match enc {
        EncMode::Plain => true,
        _ => false,
    };
    if flags % 2 == 1 && is_plain {
        return Err(ArxError::Format(FormatError::KeyRequired));
    }
    let salt = crate::tail::bytes32_at(file, 10);
    Ok(JournalHeader { flags, salt })
}

/// A record appended to a plain journal reads back whole, whatever was written before it and
/// whatever follows it, and iteration goes on right after it.
pub proof fn lemma_plain_record_reads_back(before: Seq<u8>, payload: Seq<u8>, after: Seq<u8>, salt: Seq<u8>)
    requires
        payload.len() <= u64::MAX,
    ensures
        spec_next_record(
            before + uvarint(payload.len()) + payload + after,
            before.len() as int,
            None,
            salt,
            Sidecar::Journal,
        ) == Ok::<Option<(Seq<u8>, int)>, ArxError>(
            Some((payload, (before.len() + uvarint(payload.len()).len() + payload.len()) as int)),
        ),
{
    let v = uvarint(payload.len());
    let file = before + v + payload + after;
    assert(file.subrange(before.len() as int, (before.len() + v.len()) as int) =~= v);
    crate::varint::lemma_uvarint_round_trip(file, before.len() as int, payload.len() as u64);
    crate::varint::lemma_uvarint_len_bound(payload.len(), 10);
    let start = (before.len() + v.len()) as int;
    assert(file.subrange(start, start + payload.len()) =~= payload);
}

/// A record cut short inside its payload ends iteration cleanly: nothing is read and no error
/// comes, so the records before it are all there is.
pub proof fn lemma_plain_truncated_record_is_end(before: Seq<u8>, payload: Seq<u8>, kept: int, salt: Seq<u8>)
    requires
        payload.len() <= u64::MAX,
        0 <= kept < payload.len(),
    ensures
        spec_next_record(
            before + uvarint(payload.len()) + payload.subrange(0, kept),
            before.len() as int,
            None,
            salt,
            Sidecar::Journal,
        ) == Ok::<Option<(Seq<u8>, int)>, ArxError>(None),
{
    let v = uvarint(payload.len());
    let file = before + v + payload.subrange(0, kept);
    assert(file.subrange(before.len() as int, (before.len() + v.len()) as int) =~= v);
    crate::varint::lemma_uvarint_round_trip(file, before.len() as int, payload.len() as u64);
    crate::varint::lemma_uvarint_len_bound(payload.len(), 10);
}

/// The records of a sidecar from `pos` on: read until a clean or partial end, or the first error.
pub open spec fn spec_records(file: Seq<u8>, pos: int, key: Option<[u8; 32]>, salt: Seq<u8>, sc: Sidecar) -> Result<
    Seq<Seq<u8>>,
    ArxError,
>
    decreases file.len() - pos,
{
    match spec_next_record(file, pos, key, salt, sc) {
        Err(e) => Err(e),
        Ok(None) => Ok(Seq::empty()),
        Ok(Some((p, next))) => if next <= pos || pos >= file.len() {
            Ok(Seq::empty())
        } else {
            match spec_records(file, next, key, salt, sc) {
                Err(e) => Err(e),
                Ok(rest) => Ok(seq![p] + rest),
            }
        },
    }
}

pub open spec fn res_seqs(r: Result<Vec<Vec<u8>>, ArxError>) -> Result<Seq<Seq<u8>>, ArxError> {
    match r {
        Ok(v) => Ok(Seq::new(v@.len(), |i: int| v@[i]@)),
        Err(e) => Err(e),
    }
}

/// `done` followed by what `r` read, or its error.
pub open spec fn prepend(done: Seq<Seq<u8>>, r: Result<Seq<Seq<u8>>, ArxError>) -> Result<Seq<Seq<u8>>, ArxError> {
    match r {
        Ok(rest) => Ok(done + rest),
        Err(e) => Err(e),
    }
}

/// A record read at `pos` ends after it.
proof fn lemma_next_record_advances(file: Seq<u8>, pos: int, key: Option<[u8; 32]>, salt: Seq<u8>, sc: Sidecar)
    requires
        0 <= pos,
        spec_next_record(file, pos, key, salt, sc) matches Ok(Some((p, next))),
    ensures
        spec_next_record(file, pos, key, salt, sc) matches Ok(Some((p, next))) && pos < next <= file.len(),
{
    assert(crate::varint::varint_at(file, pos) matches VarintRead::Value(len, n) && n >= 1) by {
        lemma_vscan_len(file, pos, 0, 0, 1);
    }
}

proof fn lemma_vscan_len(s: Seq<u8>, pos: int, i: int, acc: int, mul: int)
    requires
        0 <= i,
    ensures
        crate::varint::vscan(s, pos, i, acc, mul) matches VarintRead::Value(v, n) ==> n > i,
    decreases 10 - i,
{
    if i < 10 && pos + i < s.len() && s[pos + i] >= 128 {
        lemma_vscan_len(s, pos, i + 1, acc + (s[pos + i] % 128) * mul, mul * 128);
    }
}

/// Reads every record from `pos` on, stopping cleanly at the end or at a cut-short record.
pub fn read_records(file: &[u8], pos: usize, key: &Option<[u8; 32]>, salt: &[u8; 32], sc: Sidecar) -> (r: Result<
    Vec<Vec<u8>>,
    ArxError,
>)
    ensures
        res_seqs(r) == spec_records(file@, pos as int, *key, salt@, sc),
{
    let mut out: Vec<Vec<u8>> = Vec::new();
    let mut at: usize = pos;
    let ghost done: Seq<Seq<u8>> = Seq::empty();
    proof {
        match spec_records(file@, pos as int, *key, salt@, sc) {
            Ok(rest) => {
                assert(Seq::<Seq<u8>>::empty() + rest =~= rest);
            },
            Err(_) => {},
        }
    }
    loop
        invariant
            pos <= at,
            done.len() == out@.len(),
            forall|i: int| 0 <= i < done.len() ==> done[i] == (#[trigger] out@[i])@,
            spec_records(file@, pos as int, *key, salt@, sc) == prepend(done, spec_records(file@, at as int, *key, salt@, sc)),
        decreases file@.len() - at,
    {
        let ghost here = spec_records(file@, at as int, *key, salt@, sc);
        match next_record(file, at, key, salt, sc) {
            Err(e) => {
                assert(here == Err::<Seq<Seq<u8>>, ArxError>(e));
                return Err(e);
            },
            Ok(None) => {
                assert(here == Ok::<Seq<Seq<u8>>, ArxError>(Seq::empty()));
                assert(done + Seq::<Seq<u8>>::empty() =~= done);
                assert(res_seqs(Ok::<Vec<Vec<u8>>, ArxError>(out)) == Ok::<Seq<Seq<u8>>, ArxError>(done)) by {
                    assert(Seq::new(out@.len(), |i: int| out@[i]@) =~= done);
                }
                return Ok(out);
            },
            Ok(Some((p, next))) => {
                proof {
                    lemma_next_record_advances(file@, at as int, *key, salt@, sc);
                }
                if at >= file.len() {
                    assert(here == Ok::<Seq<Seq<u8>>, ArxError>(Seq::empty()));
                    assert(done + Seq::<Seq<u8>>::empty() =~= done);
                    assert(Seq::new(out@.len(), |i: int| out@[i]@) =~= done);
                    return Ok(out);
                }
                let ghost pv = p@;
                proof {
                    let later = spec_records(file@, next as int, *key, salt@, sc);
                    match later {
                        Ok(rest) => {
                            assert(here == Ok::<Seq<Seq<u8>>, ArxError>(seq![pv] + rest));
                            assert(done + (seq![pv] + rest) =~= done.push(pv) + rest);
                        },
                        Err(e) => {
                            assert(here == Err::<Seq<Seq<u8>>, ArxError>(e));
                        },
                    }
                    done = done.push(pv);
                }
                out.push(p);
                at = next;
            },
        }
    }
}

/// The frames of records appended in order to a plain sidecar.
pub open spec fn plain_frames(ps: Seq<Seq<u8>>) -> Seq<u8>
    decreases ps.len(),
{
    if ps.len() == 0 {
        Seq::empty()
    } else {
        uvarint(ps[0].len()) + ps[0] + plain_frames(ps.drop_first())
    }
}

proof fn lemma_records_over_frames(before: Seq<u8>, ps: Seq<Seq<u8>>, rest: Seq<u8>, salt: Seq<u8>)
    requires
        forall|i: int| 0 <= i < ps.len() ==> (#[trigger] ps[i]).len() <= u64::MAX,
    ensures
        spec_records(before + plain_frames(ps) + rest, before.len() as int, None, salt, Sidecar::Journal) == prepend(
            ps,
            spec_records(
                before + plain_frames(ps) + rest,
                (before.len() + plain_frames(ps).len()) as int,
                None,
                salt,
                Sidecar::Journal,
            ),
        ),
    decreases ps.len(),
{
    let file = before + plain_frames(ps) + rest;
    if ps.len() == 0 {
        assert(plain_frames(ps) =~= Seq::<u8>::empty());
        match spec_records(file, before.len() as int, None, salt, Sidecar::Journal) {
            Ok(r) => {
                assert(ps + r =~= r);
            },
            Err(_) => {},
        }
    } else {
        let head_rec = ps[0];
        let tailps = ps.drop_first();
        let frame0 = uvarint(head_rec.len()) + head_rec;
        assert(plain_frames(ps) == frame0 + plain_frames(tailps));
        assert(file =~= before + uvarint(head_rec.len()) + head_rec + (plain_frames(tailps) + rest));
        lemma_plain_record_reads_back(before, head_rec, plain_frames(tailps) + rest, salt);
        let next = (before.len() + frame0.len()) as int;
        assert forall|i: int| 0 <= i < tailps.len() implies (#[trigger] tailps[i]).len() <= u64::MAX by {
            assert(tailps[i] == ps[i + 1]);
        }
        lemma_records_over_frames(before + frame0, tailps, rest, salt);
        assert(before + frame0 + plain_frames(tailps) + rest =~= file);
        crate::varint::lemma_uvarint_len_bound(head_rec.len(), 10);
        let end = (before.len() + plain_frames(ps).len()) as int;
        assert(end == (before + frame0).len() + plain_frames(tailps).len());
        match spec_records(file, end, None, salt, Sidecar::Journal) {
            Ok(r) => {
                assert(seq![head_rec] + (tailps + r) =~= ps + r);
            },
            Err(_) => {},
        }
    }
}

/// A plain journal keeps what was appended: after records `ps` are appended, reading from the
/// first record gives exactly `ps`, in order; and when a last record is cut short inside its
/// payload, reading still gives exactly `ps`, without error.
pub proof fn lemma_plain_journal_durable(header: Seq<u8>, ps: Seq<Seq<u8>>, cut: Seq<u8>, kept: int, salt: Seq<u8>)
    requires
        forall|i: int| 0 <= i < ps.len() ==> (#[trigger] ps[i]).len() <= u64::MAX,
        cut.len() <= u64::MAX,
        0 <= kept < cut.len(),
    ensures
        spec_records(header + plain_frames(ps), header.len() as int, None, salt, Sidecar::Journal)
            == Ok::<Seq<Seq<u8>>, ArxError>(ps),
        spec_records(
            header + plain_frames(ps) + (uvarint(cut.len()) + cut.subrange(0, kept)),
            header.len() as int,
            None,
            salt,
            Sidecar::Journal,
        ) == Ok::<Seq<Seq<u8>>, ArxError>(ps),
{
    let whole = header + plain_frames(ps);
    lemma_records_over_frames(header, ps, Seq::empty(), salt);
    assert(whole + Seq::<u8>::empty() =~= whole);
    assert(ps + Seq::<Seq<u8>>::empty() =~= ps);
    let partial = uvarint(cut.len()) + cut.subrange(0, kept);
    lemma_records_over_frames(header, ps, partial, salt);
    lemma_plain_truncated_record_is_end(whole, cut, kept, salt);
    assert(whole + uvarint(cut.len()) + cut.subrange(0, kept) =~= whole + partial);
}

} // verus!
