//! The chunk table: a fixed-stride array of 32-byte chunk descriptors.
use vstd::prelude::*;
use crate::error::{ArxError, FormatError};
use crate::le::{get_le, le_enc, le_val, put_le, lemma_le_enc_len, lemma_le_round_trip, lemma_pow256_8};

verus! {

pub const ENTRY_SIZE: u64 = 32;

#[derive(Debug, Clone, Copy, PartialEq, Eq, Structural)]
pub struct ChunkEntry {
    pub codec: u8,
    /// Uncompressed size.
    pub u_size: u64,
    /// Bytes on disk at `data_off`, AEAD tag included when sealed.
    pub c_size: u64,
    pub data_off: u64,
}

/// `[0]=codec, [1..8]=pad, [8..16]=u_size, [16..24]=c_size, [24..32]=data_off`.
pub open spec fn entry_encode(e: ChunkEntry) -> Seq<u8> {
    seq![e.codec] + Seq::new(7, |i: int| 0u8) + le_enc(e.u_size as nat, 8) + le_enc(
        e.c_size as nat,
        8,
    ) + le_enc(e.data_off as nat, 8)
}

/// The entry that 32 bytes denote.
pub open spec fn entry_decode(b: Seq<u8>) -> ChunkEntry {
    ChunkEntry {
        codec: b[0],
        u_size: le_val(b.subrange(8, 16)) as u64,
        c_size: le_val(b.subrange(16, 24)) as u64,
        data_off: le_val(b.subrange(24, 32)) as u64,
    }
}

/// The plaintext of a chunk table.
pub open spec fn table_encode(es: Seq<ChunkEntry>) -> Seq<u8>
    decreases es.len(),
{
    if es.len() == 0 {
        Seq::empty()
    } else {
        table_encode(es.drop_last()) + entry_encode(es.last())
    }
}

/// Whether `v` is the table that the plaintext `b` of `count` entries denotes.
pub open spec fn table_decodes_to(b: Seq<u8>, count: nat, v: Seq<ChunkEntry>) -> bool {
    &&& b.len() == count * ENTRY_SIZE
    &&& v.len() == count
    &&& forall|i: int|
        0 <= i < count ==> #[trigger] v[i] == entry_decode(b.subrange(i * 32, i * 32 + 32))
}

pub proof fn lemma_entry_round_trip(e: ChunkEntry)
    ensures
        entry_encode(e).len() == ENTRY_SIZE,
        entry_decode(entry_encode(e)) == e,
{
    lemma_pow256_8();
    lemma_le_enc_len(e.u_size as nat, 8);
    lemma_le_enc_len(e.c_size as nat, 8);
    lemma_le_enc_len(e.data_off as nat, 8);
    lemma_le_round_trip(e.u_size as nat, 8);
    lemma_le_round_trip(e.c_size as nat, 8);
    lemma_le_round_trip(e.data_off as nat, 8);
    let b = entry_encode(e);
    assert(b.subrange(8, 16) =~= le_enc(e.u_size as nat, 8));
    assert(b.subrange(16, 24) =~= le_enc(e.c_size as nat, 8));
    assert(b.subrange(24, 32) =~= le_enc(e.data_off as nat, 8));
}

pub proof fn lemma_table_slot(es: Seq<ChunkEntry>, i: int)
    requires
        0 <= i < es.len(),
    ensures
        table_encode(es).len() == es.len() * ENTRY_SIZE,
        table_encode(es).subrange(i * 32, i * 32 + 32) == entry_encode(es[i]),
    decreases es.len(),
{
    lemma_table_len(es);
    let last = es.len() - 1;
    lemma_entry_round_trip(es.last());
    lemma_table_len(es.drop_last());
    if i < last {
        lemma_table_slot(es.drop_last(), i);
        assert(table_encode(es).subrange(i * 32, i * 32 + 32) =~= table_encode(es.drop_last()).subrange(
            i * 32,
            i * 32 + 32,
        ));
    } else {
        assert(table_encode(es).subrange(i * 32, i * 32 + 32) =~= entry_encode(es.last()));
    }
}

pub proof fn lemma_table_len(es: Seq<ChunkEntry>)
    ensures
        table_encode(es).len() == es.len() * ENTRY_SIZE,
    decreases es.len(),
{
    if es.len() > 0 {
        lemma_table_len(es.drop_last());
        lemma_entry_round_trip(es.last());
    }
}

/// Reading a written table gives the entries back.
pub proof fn lemma_table_round_trip(es: Seq<ChunkEntry>)
    ensures
        table_decodes_to(table_encode(es), es.len(), es),
{
    lemma_table_len(es);
    assert forall|i: int| 0 <= i < es.len() implies #[trigger] es[i] == entry_decode(
        table_encode(es).subrange(i * 32, i * 32 + 32),
    ) by {
        lemma_table_slot(es, i);
        lemma_entry_round_trip(es[i]);
    }
}

/// Appends the 32 bytes of one entry.
fn put_entry(out: &mut Vec<u8>, e: &ChunkEntry)
    ensures
        final(out)@ == old(out)@ + entry_encode(*e),
{
    proof {
        lemma_pow256_8();
    }
    let ghost start = out@;
    out.push(e.codec);
    let mut i: usize = 0;
    while i < 7
        invariant
            i <= 7,
            out@ == start + seq![e.codec] + Seq::new(i as nat, |j: int| 0u8),
        decreases 7 - i,
    {
        out.push(0u8);
        assert(out@ =~= start + seq![e.codec] + Seq::new((i + 1) as nat, |j: int| 0u8));
        i = i + 1;
    }
    put_le(out, e.u_size, 8);
    put_le(out, e.c_size, 8);
    put_le(out, e.data_off, 8);
    assert(out@ =~= start + entry_encode(*e));
}

/// The plaintext of the chunk table holding `entries`, in order.
pub fn write_table(entries: &[ChunkEntry]) -> (r: Vec<u8>)
    ensures
        r@ == table_encode(entries@),
{
    let mut out: Vec<u8> = Vec::new();
    let mut i: usize = 0;
    while i < entries.len()
        invariant
            i <= entries@.len(),
            out@ == table_encode(entries@.subrange(0, i as int)),
        decreases entries@.len() - i,
    {
        put_entry(&mut out, &entries[i]);
        proof {
            let s = entries@.subrange(0, i + 1);
            assert(s.drop_last() =~= entries@.subrange(0, i as int));
        }
        i = i + 1;
    }
    assert(entries@.subrange(0, entries@.len() as int) =~= entries@);
    out
}

/// Parses a chunk-table plaintext of `count` entries.
pub fn read_table_from_slice(buf: &[u8], count: u64) -> (r: Result<Vec<ChunkEntry>, ArxError>)
    ensures
        buf@.len() != count * ENTRY_SIZE ==> r == Err::<Vec<ChunkEntry>, ArxError>(
            ArxError::Format(FormatError::TableSizeMismatch),
        ),
        buf@.len() == count * ENTRY_SIZE ==> (r matches Ok(v) && table_decodes_to(
            buf@,
            count as nat,
            v@,
        )),
{
    if buf.len() % 32 != 0 || (buf.len() / 32) as u64 != count {
        return Err(ArxError::Format(FormatError::TableSizeMismatch));
    }
    let n: usize = buf.len() / 32;
    let mut out: Vec<ChunkEntry> = Vec::new();
    let mut i: usize = 0;
    while i < n
        invariant
            i <= n,
            n * 32 == buf.len(),
            out@.len() == i,
            forall|k: int|
                0 <= k < i ==> #[trigger] out@[k] == entry_decode(buf@.subrange(k * 32, k * 32 + 32)),
        decreases n - i,
    {
        let off: usize = i * 32;
        let e = ChunkEntry {
            codec: buf[off],
            u_size: get_le(buf, off + 8, 8),
            c_size: get_le(buf, off + 16, 8),
            data_off: get_le(buf, off + 24, 8),
        };
        proof {
            let s = buf@.subrange(off as int, off + 32);
            assert(s.subrange(8, 16) =~= buf@.subrange(off + 8, off + 16));
            assert(s.subrange(16, 24) =~= buf@.subrange(off + 16, off + 24));
            assert(s.subrange(24, 32) =~= buf@.subrange(off + 24, off + 32));
        }
        out.push(e);
        i = i + 1;
    }
    Ok(out)
}

} // verus!
