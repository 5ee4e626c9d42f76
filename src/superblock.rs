//! The 48-byte superblock at offset 0 of a container.
use vstd::prelude::*;
use crate::error::{ArxError, FormatError};
use crate::le::{get_le, le_enc, le_val, put_le, lemma_le_enc_len, lemma_le_round_trip, lemma_pow256_8};

verus! {

pub const HEADER_LEN: u64 = 48;

pub const VERSION: u16 = 3;

/// Bit 0 of the flags: manifest, chunk table and chunk data are AEAD-sealed.
pub const FLAG_ENCRYPTED: u64 = 1;

/// `"ARXALP"`.
pub open spec fn sb_magic() -> Seq<u8> {
    seq![65u8, 82u8, 88u8, 65u8, 76u8, 80u8]
}

#[derive(Debug, Clone, Copy, PartialEq, Eq, Structural)]
pub struct Superblock {
    pub version: u16,
    /// Byte length of the manifest region on disk.
    pub manifest_len: u64,
    pub chunk_table_off: u64,
    pub chunk_count: u64,
    /// Absolute file offset where the data region starts.
    pub data_off: u64,
    pub flags: u64,
}

/// The on-disk bytes of a superblock.
pub open spec fn sb_encode(sb: Superblock) -> Seq<u8> {
    sb_magic() + le_enc(sb.version as nat, 2) + le_enc(sb.manifest_len as nat, 8) + le_enc(
        sb.chunk_table_off as nat,
        8,
    ) + le_enc(sb.chunk_count as nat, 8) + le_enc(sb.data_off as nat, 8) + le_enc(sb.flags as nat, 8)
}

/// The superblock that 48 bytes with the right magic denote.
pub open spec fn sb_decode(b: Seq<u8>) -> Superblock {
    Superblock {
        version: le_val(b.subrange(6, 8)) as u16,
        manifest_len: le_val(b.subrange(8, 16)) as u64,
        chunk_table_off: le_val(b.subrange(16, 24)) as u64,
        chunk_count: le_val(b.subrange(24, 32)) as u64,
        data_off: le_val(b.subrange(32, 40)) as u64,
        flags: le_val(b.subrange(40, 48)) as u64,
    }
}

/// What reading a superblock from the start of `b` gives.
pub open spec fn sb_read(b: Seq<u8>) -> Result<Superblock, ArxError> {
    if b.len() < 6 {
        Err(ArxError::Format(FormatError::ShortRead))
    } else if b.subrange(0, 6) != sb_magic() {
        Err(ArxError::Format(FormatError::BadMagic))
    } else if b.len() < 48 {
        Err(ArxError::Format(FormatError::ShortRead))
    } else {
        Ok(sb_decode(b))
    }
}

/// Reading what `write_to` wrote gives the same superblock, whatever follows it.
pub proof fn lemma_superblock_round_trip(sb: Superblock, rest: Seq<u8>)
    ensures
        sb_encode(sb).len() == HEADER_LEN,
        sb_read(sb_encode(sb) + rest) == Ok::<Superblock, ArxError>(sb),
{
    lemma_pow256_8();
    lemma_le_enc_len(sb.version as nat, 2);
    lemma_le_enc_len(sb.manifest_len as nat, 8);
    lemma_le_enc_len(sb.chunk_table_off as nat, 8);
    lemma_le_enc_len(sb.chunk_count as nat, 8);
    lemma_le_enc_len(sb.data_off as nat, 8);
    lemma_le_enc_len(sb.flags as nat, 8);
    lemma_le_round_trip(sb.version as nat, 2);
    lemma_le_round_trip(sb.manifest_len as nat, 8);
    lemma_le_round_trip(sb.chunk_table_off as nat, 8);
    lemma_le_round_trip(sb.chunk_count as nat, 8);
    lemma_le_round_trip(sb.data_off as nat, 8);
    lemma_le_round_trip(sb.flags as nat, 8);
    let b = sb_encode(sb) + rest;
    assert(b.subrange(0, 6) =~= sb_magic());
    assert(b.subrange(6, 8) =~= le_enc(sb.version as nat, 2));
    assert(b.subrange(8, 16) =~= le_enc(sb.manifest_len as nat, 8));
    assert(b.subrange(16, 24) =~= le_enc(sb.chunk_table_off as nat, 8));
    assert(b.subrange(24, 32) =~= le_enc(sb.chunk_count as nat, 8));
    assert(b.subrange(32, 40) =~= le_enc(sb.data_off as nat, 8));
    assert(b.subrange(40, 48) =~= le_enc(sb.flags as nat, 8));
}

/// Whether `b` starts with the superblock magic.
fn magic_at(b: &[u8]) -> (r: bool)
    requires
        b@.len() >= 6,
    ensures
        r == (b@.subrange(0, 6) == sb_magic()),
{
    let ok = b[0] == 65u8 && b[1] == 82u8 && b[2] == 88u8 && b[3] == 65u8 && b[4] == 76u8 && b[5]
        == 80u8;
    if ok {
        assert(b@.subrange(0, 6) =~= sb_magic());
    } else {
        proof {
            let s = b@.subrange(0, 6);
            if s == sb_magic() {
                assert(s[0] == 65u8 && s[1] == 82u8 && s[2] == 88u8);
                assert(s[3] == 65u8 && s[4] == 76u8 && s[5] == 80u8);
            }
        }
    }
    ok
}

impl Superblock {
    /// The 48 bytes of this superblock.
    pub fn write_to(&self) -> (r: Vec<u8>)
        ensures
            r@ == sb_encode(*self),
            r@.len() == HEADER_LEN,
    {
        proof {
            lemma_pow256_8();
        }
        let mut out: Vec<u8> = Vec::new();
        out.push(65u8);
        out.push(82u8);
        out.push(88u8);
        out.push(65u8);
        out.push(76u8);
        out.push(80u8);
        assert(out@ =~= sb_magic());
        put_le(&mut out, self.version as u64, 2);
        put_le(&mut out, self.manifest_len, 8);
        put_le(&mut out, self.chunk_table_off, 8);
        put_le(&mut out, self.chunk_count, 8);
        put_le(&mut out, self.data_off, 8);
        put_le(&mut out, self.flags, 8);
        proof {
            lemma_superblock_round_trip(*self, Seq::empty());
        }
        out
    }

    /// Reads a superblock from the start of `b`.
    pub fn read_from(b: &[u8]) -> (r: Result<Superblock, ArxError>)
        ensures
            r == sb_read(b@),
    {
        if b.len() < 6 {
            return Err(ArxError::Format(FormatError::ShortRead));
        }
        if !magic_at(b) {
            return Err(ArxError::Format(FormatError::BadMagic));
        }
        if b.len() < 48 {
            return Err(ArxError::Format(FormatError::ShortRead));
        }
        let version = get_le(b, 6, 2);
        proof {
            lemma_pow256_8();
            crate::le::lemma_le_val_bound(b@.subrange(6, 8));
        }
        Ok(
            Superblock {
                version: version as u16,
                manifest_len: get_le(b, 8, 8),
                chunk_table_off: get_le(b, 16, 8),
                chunk_count: get_le(b, 24, 8),
                data_off: get_le(b, 32, 8),
                flags: get_le(b, 40, 8),
            },
        )
    }

    /// Whether the flags mark the container as AEAD-sealed.
    pub fn is_encrypted(&self) -> (r: bool)
        ensures
            r == (self.flags % 2 == 1),
    {
        self.flags % 2 == 1
    }
}

} // verus!
