//! The codec registry: STORE (identity) and ZSTD, keyed by a one-byte tag.
use vstd::prelude::*;
use crate::crypto::opt_bytes;

verus! {

/// The zstd frame that compression at level 3 gives for `data`.
pub uninterp spec fn zstd_encoded(data: Seq<u8>) -> Seq<u8>;

/// What zstd decompression gives for `data`: the content, or `None` when it is no valid frame.
pub uninterp spec fn zstd_decoded(data: Seq<u8>) -> Option<Seq<u8>>;

/// Relies on zstd::stream::encode_all at level 3: reading a slice into a `Vec` at a valid level
/// does not fail, and the frame depends on the input alone.
#[verifier::external_body]
pub(crate) fn zstd_compress(data: &[u8]) -> (r: Option<Vec<u8>>)
    ensures
        r is Some,
        r matches Some(c) ==> c@ == zstd_encoded(data@),
{
    zstd::stream::encode_all(data, 3).ok()
}

/// Relies on zstd::stream::decode_all: a function of the frame, lossless on what encode_all produced.
#[verifier::external_body]
pub(crate) fn zstd_decompress(data: &[u8]) -> (r: Option<Vec<u8>>)
    ensures
        opt_bytes(r) == zstd_decoded(data@),
        forall|m: Seq<u8>| #![trigger zstd_encoded(m)] data@ == zstd_encoded(m) ==> opt_bytes(r) == Some(m),
{
    zstd::stream::decode_all(data).ok()
}

} // verus!

verus! {

/// Codec tags as stored in `ChunkEntry::codec`.
#[derive(Debug, Clone, Copy, PartialEq, Eq, Structural)]
pub enum CodecId {
    Store,
    Zstd,
}

pub const CODEC_STORE: u8 = 0;

pub const CODEC_ZSTD: u8 = 1;

/// Parts per million that compression must save before ZSTD is kept: 5%.
pub const DEFAULT_MIN_GAIN_PPM: u64 = 50000;

impl CodecId {
    pub open spec fn spec_tag(self) -> u8 {
        match self {
            CodecId::Store => 0,
            CodecId::Zstd => 1,
        }
    }

    /// The one-byte tag of this codec.
    pub fn tag(&self) -> (r: u8)
        ensures
            r == self.spec_tag(),
    {
        match self {
            CodecId::Store => 0,
            CodecId::Zstd => 1,
        }
    }

    /// What decoding `payload` with this codec gives.
    pub open spec fn spec_decode(self, payload: Seq<u8>) -> Option<Seq<u8>> {
        match self {
            CodecId::Store => Some(payload),
            CodecId::Zstd => zstd_decoded(payload),
        }
    }

    /// The payload this codec stores for content `m`.
    pub open spec fn spec_encode(self, m: Seq<u8>) -> Seq<u8> {
        match self {
            CodecId::Store => m,
            CodecId::Zstd => zstd_encoded(m),
        }
    }

    /// Decodes a stored chunk payload.
    pub fn decode(&self, payload: &[u8]) -> (r: Option<Vec<u8>>)
        ensures
            opt_bytes(r) == self.spec_decode(payload@),
            forall|m: Seq<u8>| #![trigger self.spec_encode(m)] payload@ == self.spec_encode(m) ==> opt_bytes(r) == Some(m),
    {
        match self {
            CodecId::Store => Some(copy_bytes(payload)),
            CodecId::Zstd => zstd_decompress(payload),
        }
    }
}

/// A copy of `s`.
pub fn copy_bytes(s: &[u8]) -> (r: Vec<u8>)
    ensures
        r@ == s@,
{
    let mut out: Vec<u8> = Vec::new();
    let mut i: usize = 0;
    while i < s.len()
        invariant
            i <= s@.len(),
            out@ == s@.subrange(0, i as int),
        decreases s@.len() - i,
    {
        out.push(s[i]);
        assert(out@ =~= s@.subrange(0, i + 1));
        i = i + 1;
    }
    assert(s@.subrange(0, s@.len() as int) =~= s@);
    out
}

pub open spec fn spec_codec_of(tag: u8) -> Option<CodecId> {
    if tag == 0 {
        Some(CodecId::Store)
    } else if tag == 1 {
        Some(CodecId::Zstd)
    } else {
        None
    }
}

/// Looks up a codec by the tag stored in a chunk entry.
pub fn get_decoder_u8(codec: u8) -> (r: Result<CodecId, crate::error::ArxError>)
    ensures
        spec_codec_of(codec) matches Some(c) ==> r == Ok::<CodecId, crate::error::ArxError>(c),
        spec_codec_of(codec) is None ==> r == Err::<CodecId, crate::error::ArxError>(
            crate::error::ArxError::Format(crate::error::FormatError::UnknownCodec),
        ),
{
    if codec == 0 {
        Ok(CodecId::Store)
    } else if codec == 1 {
        Ok(CodecId::Zstd)
    } else {
        Err(crate::error::ArxError::Format(crate::error::FormatError::UnknownCodec))
    }
}

/// The gain actually required: a caller's 0 stands for the 5% default.
pub open spec fn spec_effective_gain(g: u64) -> int {
    if g == 0 {
        DEFAULT_MIN_GAIN_PPM as int
    } else {
        g as int
    }
}

/// Compression from `u` to `c` bytes saves at least `g` parts per million: `u - c >= u * g / 10^6`.
pub open spec fn gain_ok(u: int, c: int, g: int) -> bool {
    (u - c) * 1_000_000 >= u * g
}

pub fn effective_min_gain(g: u64) -> (r: u64)
    ensures
        r as int == spec_effective_gain(g),
{
    if g == 0 {
        DEFAULT_MIN_GAIN_PPM
    } else {
        g
    }
}

/// Whether a chunk of `u` bytes that compresses to `c` bytes should be kept compressed.
pub fn should_compress(u: u64, c: u64, g: u64) -> (r: bool)
    ensures
        r == gain_ok(u as int, c as int, g as int),
{
    if c > u {
        assert((u - c) * 1_000_000 < 0 <= u * g) by (nonlinear_arith)
            requires
                c > u,
        ;
        false
    } else {
        let lhs: u128 = ((u - c) as u128) * 1_000_000;
        assert((u as u128) * (g as u128) <= 0xffff_ffff_ffff_ffff * 0xffff_ffff_ffff_ffff) by (nonlinear_arith)
            requires
                u <= 0xffff_ffff_ffff_ffff,
                g <= 0xffff_ffff_ffff_ffff,
        ;
        let rhs: u128 = (u as u128) * (g as u128);
        lhs >= rhs
    }
}

/// The codec for a chunk of `u` bytes, given the size of its zstd frame if compression succeeded.
pub fn choose_codec(u: u64, zlen: Option<u64>, g: u64) -> (r: CodecId)
    ensures
        r == (match zlen {
            Some(c) => if gain_ok(u as int, c as int, spec_effective_gain(g)) {
                CodecId::Zstd
            } else {
                CodecId::Store
            },
            None => CodecId::Store,
        }),
{
    match zlen {
        Some(c) => if should_compress(u, c, effective_min_gain(g)) {
            CodecId::Zstd
        } else {
            CodecId::Store
        },
        None => CodecId::Store,
    }
}

} // verus!
