//! The 120-byte tail summary at the end of a finalized container.
use vstd::prelude::*;
use crate::error::{ArxError, FormatError};
use crate::le::{get_le, le_enc, le_val, put_le, lemma_le_enc_len, lemma_le_round_trip, lemma_pow256_8};

verus! {

pub const TAIL_LEN: u64 = 120;

/// `"ARXTAIL\0"`.
pub open spec fn tail_magic() -> Seq<u8> {
    seq![65u8, 82u8, 88u8, 84u8, 65u8, 73u8, 76u8, 0u8]
}

#[derive(Debug, Clone, Copy)]
pub struct TailSummary {
    /// BLAKE3 of the manifest plaintext.
    pub manifest_blake3: [u8; 32],
    /// BLAKE3 of the chunk-table plaintext.
    pub chunktab_blake3: [u8; 32],
    /// BLAKE3 of the concatenated post-compression chunk plaintexts, in id order.
    pub data_blake3: [u8; 32],
    pub total_u: u64,
    pub total_c: u64,
}

/// The on-disk bytes of a tail summary.
pub open spec fn tail_encode(t: TailSummary) -> Seq<u8> {
    tail_magic() + t.manifest_blake3@ + t.chunktab_blake3@ + t.data_blake3@ + le_enc(
        t.total_u as nat,
        8,
    ) + le_enc(t.total_c as nat, 8)
}

/// Whether `t` is what the bytes `b` (at least 120, with the magic) denote.
pub open spec fn tail_decodes_to(b: Seq<u8>, t: TailSummary) -> bool {
    &&& t.manifest_blake3@ == b.subrange(8, 40)
    &&& t.chunktab_blake3@ == b.subrange(40, 72)
    &&& t.data_blake3@ == b.subrange(72, 104)
    &&& t.total_u as nat == le_val(b.subrange(104, 112))
    &&& t.total_c as nat == le_val(b.subrange(112, 120))
}

/// Reading what `write_to` wrote gives the same summary back.
pub proof fn lemma_tail_round_trip(t: TailSummary)
    ensures
        tail_encode(t).len() == TAIL_LEN,
        tail_encode(t).subrange(0, 8) == tail_magic(),
        tail_decodes_to(tail_encode(t), t),
{
    lemma_pow256_8();
    lemma_le_enc_len(t.total_u as nat, 8);
    lemma_le_enc_len(t.total_c as nat, 8);
    lemma_le_round_trip(t.total_u as nat, 8);
    lemma_le_round_trip(t.total_c as nat, 8);
    let b = tail_encode(t);
    assert(b.subrange(0, 8) =~= tail_magic());
    assert(b.subrange(8, 40) =~= t.manifest_blake3@);
    assert(b.subrange(40, 72) =~= t.chunktab_blake3@);
    assert(b.subrange(72, 104) =~= t.data_blake3@);
    assert(b.subrange(104, 112) =~= le_enc(t.total_u as nat, 8));
    assert(b.subrange(112, 120) =~= le_enc(t.total_c as nat, 8));
}

/// The 32 bytes of `s` that start at `off`.
pub fn bytes32_at(s: &[u8], off: usize) -> (r: [u8; 32])
    requires
        off + 32 <= s.len(),
    ensures
        r@ == s@.subrange(off as int, off + 32),
{
    let mut a: [u8; 32] = [0u8; 32];
    let mut i: usize = 0;
    while i < 32
        invariant
            i <= 32,
            off + 32 <= s.len(),
            a@.len() == 32,
            forall|j: int| 0 <= j < i ==> a@[j] == s@[off + j],
        decreases 32 - i,
    {
        a[i] = s[off + i];
        i = i + 1;
    }
    assert(a@ =~= s@.subrange(off as int, off + 32));
    a
}

/// Appends the bytes of a 32-byte array.
pub fn push_bytes32(out: &mut Vec<u8>, a: &[u8; 32])
    ensures
        final(out)@ == old(out)@ + a@,
{
    let ghost start = out@;
    let mut i: usize = 0;
    while i < 32
        invariant
            i <= 32,
            a@.len() == 32,
            out@ == start + a@.subrange(0, i as int),
        decreases 32 - i,
    {
        out.push(a[i]);
        assert(out@ =~= start + a@.subrange(0, i + 1));
        i = i + 1;
    }
    assert(a@.subrange(0, 32) =~= a@);
}

/// Whether the 8 bytes of `b` at `off` are the tail magic.
pub fn tail_magic_at(b: &[u8], off: usize) -> (r: bool)
    requires
        off + 8 <= b.len(),
    ensures
        r == (b@.subrange(off as int, off + 8) == tail_magic()),
{
    let ok = b[off] == 65u8 && b[off + 1] == 82u8 && b[off + 2] == 88u8 && b[off + 3] == 84u8
        && b[off + 4] == 65u8 && b[off + 5] == 73u8 && b[off + 6] == 76u8 && b[off + 7] == 0u8;
    proof {
        let s = b@.subrange(off as int, off + 8);
        if ok {
            assert(s =~= tail_magic());
        } else if s == tail_magic() {
            assert(s[0] == 65u8 && s[1] == 82u8 && s[2] == 88u8 && s[3] == 84u8);
            assert(s[4] == 65u8 && s[5] == 73u8 && s[6] == 76u8 && s[7] == 0u8);
        }
    }
    ok
}

impl TailSummary {
    /// The 120 bytes of this summary.
    pub fn write_to(&self) -> (r: Vec<u8>)
        ensures
            r@ == tail_encode(*self),
    {
        proof {
            lemma_pow256_8();
        }
        let mut out: Vec<u8> = Vec::new();
        out.push(65u8);
        out.push(82u8);
        out.push(88u8);
        out.push(84u8);
        out.push(65u8);
        out.push(73u8);
        out.push(76u8);
        out.push(0u8);
        assert(out@ =~= tail_magic());
        push_bytes32(&mut out, &self.manifest_blake3);
        push_bytes32(&mut out, &self.chunktab_blake3);
        push_bytes32(&mut out, &self.data_blake3);
        put_le(&mut out, self.total_u, 8);
        put_le(&mut out, self.total_c, 8);
        out
    }

    /// Reads a tail summary from the start of `b`.
    pub fn read_from(b: &[u8]) -> (r: Result<TailSummary, ArxError>)
        ensures
            b@.len() < 8 ==> r == Err::<TailSummary, ArxError>(ArxError::Format(FormatError::ShortRead)),
            b@.len() >= 8 && b@.subrange(0, 8) != tail_magic() ==> r == Err::<TailSummary, ArxError>(
                ArxError::Format(FormatError::BadMagic),
            ),
            b@.len() >= 8 && b@.subrange(0, 8) == tail_magic() && b@.len() < TAIL_LEN ==> r == Err::<
                TailSummary,
                ArxError,
            >(ArxError::Format(FormatError::ShortRead)),
            b@.len() >= TAIL_LEN && b@.subrange(0, 8) == tail_magic() ==> (r matches Ok(t)
                && tail_decodes_to(b@, t)),
    {
        if b.len() < 8 {
            return Err(ArxError::Format(FormatError::ShortRead));
        }
        if !tail_magic_at(b, 0) {
            return Err(ArxError::Format(FormatError::BadMagic));
        }
        if b.len() < 120 {
            return Err(ArxError::Format(FormatError::ShortRead));
        }
        Ok(
            TailSummary {
                manifest_blake3: bytes32_at(b, 8),
                chunktab_blake3: bytes32_at(b, 40),
                data_blake3: bytes32_at(b, 72),
                total_u: get_le(b, 104, 8),
                total_c: get_le(b, 112, 8),
            },
        )
    }
}

} // verus!
