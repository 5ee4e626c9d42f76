//! What holds of a container as the writer produces it, read back by the reader.
use vstd::prelude::*;
use crate::chunktab::{lemma_table_len, lemma_table_round_trip, table_encode, ChunkEntry, ENTRY_SIZE};
use crate::crypto::blake3_of;
use crate::error::ArxError;
use crate::le::{le_enc, le_val, lemma_le_enc_len, lemma_le_round_trip, lemma_pow256_8};
use crate::plan::DedupPlan;
use crate::reader::{all_payloads, entries_of, entry_bytes, spec_open, spec_verify, unwrap_all, OpenedView};
use crate::superblock::{lemma_superblock_round_trip, sb_encode, HEADER_LEN};
use crate::tail::{tail_magic, TAIL_LEN};
use crate::writer::{
    c_prefix, concat, data_regions, image_of, payload_views, placed, placed_all, plan_sized, sat_sum_len,
    sat_sum_u, sb_of, tail_bytes, PackOptions,
};

verus! {

/// Part `i` of a concatenation sits right after the parts before it.
pub proof fn lemma_concat_at(parts: Seq<Seq<u8>>, i: int)
    requires
        0 <= i < parts.len(),
    ensures
        concat(parts.subrange(0, i)).len() + parts[i].len() <= concat(parts).len(),
        concat(parts).subrange(
            concat(parts.subrange(0, i)).len() as int,
            (concat(parts.subrange(0, i)).len() + parts[i].len()) as int,
        ) == parts[i],
    decreases parts.len(),
{
    let d = parts.drop_last();
    if i == parts.len() - 1 {
        assert(parts.subrange(0, i) =~= d);
        assert(concat(parts).subrange(concat(d).len() as int, (concat(d).len() + parts[i].len()) as int) =~= parts[i]);
    } else {
        lemma_concat_at(d, i);
        assert(d.subrange(0, i) =~= parts.subrange(0, i));
        let p = concat(parts.subrange(0, i)).len() as int;
        assert(concat(parts).subrange(p, p + parts[i].len()) =~= concat(d).subrange(p, p + parts[i].len()));
    }
}

/// The payloads before entry `i` take `c_prefix(entries, i)` bytes when nothing is sealed.
proof fn lemma_prefix_len(plan: DedupPlan, i: int)
    requires
        plan_sized(plan, false),
        0 <= i <= plan.entries@.len(),
    ensures
        concat(payload_views(plan.payloads@).subrange(0, i)).len() == c_prefix(plan.entries@, i),
    decreases i,
{
    if i > 0 {
        lemma_prefix_len(plan, i - 1);
        let pv = payload_views(plan.payloads@);
        assert(pv.subrange(0, i).drop_last() =~= pv.subrange(0, i - 1));
        assert(plan.entries@[i - 1].c_size == plan.payloads@[i - 1]@.len());
    }
}

proof fn lemma_sat_sum_u_same_sizes(a: Seq<ChunkEntry>, b: Seq<ChunkEntry>)
    requires
        a.len() == b.len(),
        forall|i: int| 0 <= i < a.len() ==> (#[trigger] a[i]).u_size == b[i].u_size,
    ensures
        sat_sum_u(a) == sat_sum_u(b),
    decreases a.len(),
{
    if a.len() > 0 {
        lemma_sat_sum_u_same_sizes(a.drop_last(), b.drop_last());
    }
}

proof fn lemma_c_prefix_mono(es: Seq<ChunkEntry>, i: int, j: int)
    requires
        0 <= i <= j <= es.len(),
    ensures
        c_prefix(es, i) <= c_prefix(es, j),
    decreases j - i,
{
    if i < j {
        lemma_c_prefix_mono(es, i, j - 1);
    }
}

/// In an image whose data region holds the payloads in order from `doff`, each laid-out entry
/// lies inside the data region and names its payload's bytes.
proof fn lemma_chunks_in_place(img: Seq<u8>, doff: int, plan: DedupPlan, end: int)
    requires
        plan_sized(plan, false),
        0 <= doff,
        doff + c_prefix(plan.entries@, plan.entries@.len() as int) <= end <= img.len(),
        end <= u64::MAX,
        img.subrange(doff, doff + c_prefix(plan.entries@, plan.entries@.len() as int)) == concat(
            payload_views(plan.payloads@),
        ),
    ensures
        forall|i: int|
            0 <= i < plan.entries@.len() ==> crate::reader::entry_in_bounds(
                #[trigger] placed_all(plan.entries@, doff)[i],
                doff as u64,
                end,
            ) && entry_bytes(img, placed_all(plan.entries@, doff)[i]) == payload_views(plan.payloads@)[i],
{
    let n = plan.entries@.len() as int;
    let payloads = payload_views(plan.payloads@);
    let entries = placed_all(plan.entries@, doff);
    lemma_prefix_len(plan, n);
    assert(payloads.subrange(0, n) =~= payloads);
    assert forall|i: int| 0 <= i < n implies crate::reader::entry_in_bounds(
        #[trigger] entries[i],
        doff as u64,
        end,
    ) && entry_bytes(img, entries[i]) == payloads[i] by {
        lemma_prefix_len(plan, i);
        lemma_c_prefix_mono(plan.entries@, i + 1, n);
        lemma_c_prefix_mono(plan.entries@, 0, i);
        assert(c_prefix(plan.entries@, i + 1) == c_prefix(plan.entries@, i) + plan.entries@[i].c_size);
        assert(plan.entries@[i].c_size == payloads[i].len());
        lemma_concat_at(payloads, i);
        let p = c_prefix(plan.entries@, i);
        assert(entries[i] == placed(plan.entries@[i], doff + p));
        let total = c_prefix(plan.entries@, n);
        assert(img.subrange(doff + p, doff + p + payloads[i].len()) =~= img.subrange(doff, doff + total).subrange(
            p,
            p + payloads[i].len(),
        ));
    }
}

/// An unsealed container as the writer produces it passes verification: the reader finds the
/// superblock, the tail, every region and every chunk where the writer put them, and the
/// digests and totals of the tail are those of what it reads.
#[verifier::rlimit(100)]
pub proof fn lemma_written_image_verifies(manifest_plain: Seq<u8>, plan: DedupPlan, opts: PackOptions, salt: [u8; 32])
    requires
        opts.aead_key is None,
        plan_sized(plan, false),
        HEADER_LEN + manifest_plain.len() + plan.entries@.len() * ENTRY_SIZE + c_prefix(
            plan.entries@,
            plan.entries@.len() as int,
        ) + TAIL_LEN <= u64::MAX,
        blake3_of(manifest_plain).len() == 32,
        blake3_of(table_encode(placed_all(plan.entries@, sb_of(manifest_plain, plan, opts).data_off as int))).len()
            == 32,
        blake3_of(concat(payload_views(plan.payloads@))).len() == 32,
    ensures
        spec_verify(image_of(manifest_plain, plan, opts), None, salt) == Ok::<(), ArxError>(()),
{
    lemma_pow256_8();
    let n = plan.entries@.len() as int;
    let sb = sb_of(manifest_plain, plan, opts);
    let doff = sb.data_off as int;
    let entries = placed_all(plan.entries@, doff);
    let tp = table_encode(entries);
    let payloads = payload_views(plan.payloads@);
    let total = c_prefix(plan.entries@, n);
    let tb = tail_bytes(
        blake3_of(manifest_plain),
        blake3_of(tp),
        blake3_of(concat(payloads)),
        sat_sum_u(plan.entries@),
        sat_sum_len(payloads),
    );
    let img = image_of(manifest_plain, plan, opts);
    assert(img == sb_encode(sb) + manifest_plain + tp + concat(payloads) + tb) by {
        assert(data_regions(None, opts.key_salt@, payloads) =~= payloads);
    }
    assert(concat(payloads).len() == total) by {
        lemma_prefix_len(plan, n);
        assert(payloads.subrange(0, n) =~= payloads);
    }
    lemma_table_len(entries);
    assert(tb.len() == TAIL_LEN) by {
        lemma_le_enc_len(sat_sum_u(plan.entries@) as nat, 8);
        lemma_le_enc_len(sat_sum_len(payloads) as nat, 8);
    }
    let body = manifest_plain + tp + concat(payloads) + tb;
    assert(crate::superblock::sb_read(img) == Ok::<crate::superblock::Superblock, ArxError>(sb)) by {
        lemma_superblock_round_trip(sb, body);
        assert(img =~= sb_encode(sb) + body);
    }
    assert(sb_encode(sb).len() == HEADER_LEN) by {
        lemma_superblock_round_trip(sb, body);
    }
    assert(doff == HEADER_LEN + manifest_plain.len() + n * 32);
    assert(tp.len() == n * 32);
    let end = img.len() - TAIL_LEN;
    assert(img.len() == doff + total + TAIL_LEN);
    let tail = img.subrange(end, img.len() as int);
    assert(tail =~= tb);
    assert(crate::reader::data_end(img) == end) by {
        assert(tail.subrange(0, 8) =~= tail_magic());
    }
    let m0 = HEADER_LEN as int;
    let t0 = m0 + manifest_plain.len();
    assert(img.subrange(m0, t0) =~= manifest_plain);
    assert(img.subrange(t0, doff) =~= tp);
    assert(img.subrange(doff, doff + total) =~= concat(payloads));
    assert(entries_of(tp, n as nat) =~= entries) by {
        lemma_table_round_trip(entries);
    }
    lemma_chunks_in_place(img, doff, plan, end);
    assert(forall|i: int|
        0 <= i < n ==> #[trigger] crate::chunktab::entry_decode(tp.subrange(i * 32, i * 32 + 32)) == entries[i]) by {
        lemma_table_round_trip(entries);
    }
    assert(spec_open(img, None, salt) == Ok::<OpenedView, ArxError>(
        OpenedView { sb, end, manifest_plain, table_plain: tp },
    ));
    let ps = all_payloads(img, None, salt@, entries);
    assert(unwrap_all(ps) =~= payloads);
    assert(forall|i: int| 0 <= i < ps.len() ==> #[trigger] ps[i] == Some(payloads[i]));
    assert(tail.subrange(8, 40) =~= blake3_of(manifest_plain));
    assert(tail.subrange(40, 72) =~= blake3_of(tp));
    assert(tail.subrange(72, 104) =~= blake3_of(concat(payloads)));
    assert(le_val(tail.subrange(104, 112)) == sat_sum_u(plan.entries@)) by {
        lemma_le_round_trip(sat_sum_u(plan.entries@) as nat, 8);
        lemma_le_enc_len(sat_sum_u(plan.entries@) as nat, 8);
        assert(tail.subrange(104, 112) =~= le_enc(sat_sum_u(plan.entries@) as nat, 8));
    }
    assert(le_val(tail.subrange(112, 120)) == sat_sum_len(payloads)) by {
        lemma_le_round_trip(sat_sum_len(payloads) as nat, 8);
        lemma_le_enc_len(sat_sum_len(payloads) as nat, 8);
        assert(tail.subrange(112, 120) =~= le_enc(sat_sum_len(payloads) as nat, 8));
    }
    assert(sat_sum_u(entries) == sat_sum_u(plan.entries@)) by {
        lemma_sat_sum_u_same_sizes(entries, plan.entries@);
    }
}

/// Packing is deterministic: the same manifest bytes and the same per-file chunk records, under
/// the same options (salt included), give byte-identical containers, whichever plans met the
/// dedup contract for them.
pub proof fn lemma_same_records_same_image(
    manifest_plain: Seq<u8>,
    files: Seq<Vec<crate::plan::NewChunk>>,
    opts: PackOptions,
    p1: DedupPlan,
    p2: DedupPlan,
)
    requires
        crate::plan::dedup_ok(files, opts.aead_key.is_some(), p1),
        crate::plan::dedup_ok(files, opts.aead_key.is_some(), p2),
    ensures
        image_of(manifest_plain, p1, opts) == image_of(manifest_plain, p2, opts),
{
    crate::plan::lemma_dedup_deterministic(files, opts.aead_key.is_some(), p1, p2);
    assert(payload_views(p1.payloads@) =~= payload_views(p2.payloads@)) by {
        assert forall|id: int| 0 <= id < p1.payloads@.len() implies p1.payloads@[id]@ == p2.payloads@[id]@ by {
            let src = p1.sources@[id];
            assert(p2.sources@[id] == src);
        }
    }
}

/// The bytes of the `i`-th chunk of `data`.
pub open spec fn piece(data: Seq<u8>, i: int) -> Seq<u8> {
    let lens = crate::chunker::chunk_lens(data);
    data.subrange(crate::plan::offset_of(lens, i), crate::plan::offset_of(lens, i) + lens[i])
}

/// The first `k` chunks of `data`, put back together, are its first bytes.
proof fn lemma_pieces_concat(data: Seq<u8>, k: int)
    requires
        0 <= k <= crate::chunker::chunk_lens(data).len(),
    ensures
        concat(Seq::new(k as nat, |i: int| piece(data, i))) == data.subrange(
            0,
            crate::plan::offset_of(crate::chunker::chunk_lens(data), k),
        ),
        crate::plan::offset_of(crate::chunker::chunk_lens(data), k) <= data.len(),
    decreases k,
{
    let lens = crate::chunker::chunk_lens(data);
    crate::chunker::lemma_chunks_cover(data);
    crate::plan::lemma_offset_plus_rest(lens, k);
    let ps = Seq::new(k as nat, |i: int| piece(data, i));
    lemma_offset_nonneg(lens, k);
    if k == 0 {
        assert(ps =~= Seq::<Seq<u8>>::empty());
        assert(data.subrange(0, 0) =~= Seq::<u8>::empty());
    } else {
        lemma_pieces_concat(data, k - 1);
        assert(ps.drop_last() =~= Seq::new((k - 1) as nat, |i: int| piece(data, i)));
        let a = crate::plan::offset_of(lens, k - 1);
        assert(data.subrange(0, a + lens[k - 1]) =~= data.subrange(0, a) + data.subrange(a, a + lens[k - 1]));
    }
}

proof fn lemma_offset_nonneg(lens: Seq<int>, k: int)
    requires
        0 <= k <= lens.len(),
        forall|j: int| 0 <= j < lens.len() ==> 0 < #[trigger] lens[j],
    ensures
        0 <= crate::plan::offset_of(lens, k),
        k > 0 ==> 0 <= crate::plan::offset_of(lens, k - 1),
    decreases k,
{
    if k > 0 {
        lemma_offset_nonneg(lens, k - 1);
    }
}

/// Every file of an unsealed container, whatever its codecs, is stored as its chunks: each chunk
/// the file refers to holds the file's next piece, and the pieces make up the file. Reading the
/// file back (`Opened::read_file`) therefore gives its bytes. This holds unless two different
/// chunks of the input share a BLAKE3 digest (then deduplication keeps only one of them).
#[verifier::rlimit(100)]
pub proof fn lemma_written_files_hold(
    files: Seq<crate::pack::InputFile>,
    dirs: Seq<crate::pack::InputDir>,
    created: i64,
    opts: PackOptions,
    r: crate::pack::PackPlan,
    manifest_plain: Seq<u8>,
    o: crate::reader::Opened,
)
    requires
        crate::pack::pack_plan_ok(files, dirs, created, opts, r),
        opts.aead_key is None,
        forall|f1: int, k1: int, f2: int, k2: int|
            0 <= f1 < files.len() && 0 <= k1 < r.planned@[f1]@.len() && 0 <= f2 < files.len() && 0 <= k2
                < r.planned@[f2]@.len() && (#[trigger] r.planned@[f1]@[k1]).hash@ == (#[trigger] r.planned@[f2]@[k2]).hash@
                ==> r.planned@[f1]@[k1].payload@ == r.planned@[f2]@[k2].payload@ && r.planned@[f1]@[k1].codec
                == r.planned@[f2]@[k2].codec,
        HEADER_LEN + manifest_plain.len() + r.chunks.entries@.len() * ENTRY_SIZE + c_prefix(
            r.chunks.entries@,
            r.chunks.entries@.len() as int,
        ) + TAIL_LEN <= u64::MAX,
        blake3_of(manifest_plain).len() == 32,
        blake3_of(table_encode(placed_all(r.chunks.entries@, sb_of(manifest_plain, r.chunks, opts).data_off as int))).len()
            == 32,
        blake3_of(concat(payload_views(r.chunks.payloads@))).len() == 32,
        o.aead is None,
        o.table@ == placed_all(r.chunks.entries@, sb_of(manifest_plain, r.chunks, opts).data_off as int),
    ensures
        forall|f: int|
            0 <= f < files.len() ==> {
                let ms = Seq::new(
                    r.planned@[f]@.len(),
                    |k: int| piece(files[f].data@, k),
                );
                &&& crate::reader::file_holds(
                    o,
                    image_of(manifest_plain, r.chunks, opts),
                    (#[trigger] r.manifest.files@[f]).chunk_refs@,
                    ms,
                )
                &&& concat(ms) == files[f].data@
                &&& r.manifest.files@[f].u_size == concat(ms).len()
            },
{
    let plan = r.chunks;
    let planned = r.planned@;
    let img = image_of(manifest_plain, plan, opts);
    let sb = sb_of(manifest_plain, plan, opts);
    let doff = sb.data_off as int;
    let n = plan.entries@.len() as int;
    let payloads = payload_views(plan.payloads@);
    let total = c_prefix(plan.entries@, n);
    assert(img.subrange(doff, doff + total) == concat(payloads) && doff + total + TAIL_LEN == img.len()) by {
        lemma_written_image_layout(manifest_plain, plan, opts);
    }
    lemma_chunks_in_place(img, doff, plan, doff + total);
    assert forall|f: int| 0 <= f < files.len() implies {
        let ms = Seq::new(planned[f]@.len(), |k: int| piece(files[f].data@, k));
        &&& crate::reader::file_holds(o, img, (#[trigger] r.manifest.files@[f]).chunk_refs@, ms)
        &&& concat(ms) == files[f].data@
        &&& r.manifest.files@[f].u_size == concat(ms).len()
    } by {
        let data = files[f].data@;
        let lens = crate::chunker::chunk_lens(data);
        let m = planned[f]@.len() as int;
        let ms = Seq::new(planned[f]@.len(), |k: int| piece(data, k));
        let refs = r.manifest.files@[f].chunk_refs@;
        assert(refs == plan.refs@[f]@);
        assert forall|kk: int| 0 <= kk < refs.len() implies crate::reader::chunk_holds(
            o,
            img,
            (#[trigger] refs[kk]).id as int,
            ms[kk],
        ) by {
            let rf = plan.refs@[f]@[kk];
            assert(crate::plan::ref_ok(planned, plan, f, kk, rf));
            let id = rf.id as int;
            let src = plan.sources@[id];
            let c = planned[f]@[kk];
            let cs = crate::plan::chunk_at(planned, src.0 as int, src.1 as int);
            assert(crate::plan::valid_pos(planned, src));
            assert(cs.hash@ == c.hash@);
            assert(cs.payload@ == c.payload@ && cs.codec == c.codec);
            assert(crate::plan::chunk_ok(data, crate::plan::offset_of(lens, kk), lens[kk], c, opts.min_gain_ppm));
            assert(c.codec.spec_encode(ms[kk]) == c.payload@);
            assert(plan.entries@[id] == crate::plan::planned_entry(cs, false));
            assert(o.table@[id] == placed_all(plan.entries@, doff)[id]);
            assert(crate::codec::spec_codec_of(o.table@[id].codec) == Some(c.codec));
            assert(entry_bytes(img, o.table@[id]) == payloads[id]);
            assert(payloads[id] == plan.payloads@[id]@);
            assert(c.payload@.len() <= crate::chunker::MAX_CHUNK);
        }
        lemma_pieces_concat(data, m);
        crate::chunker::lemma_chunks_cover(data);
        crate::plan::lemma_offset_plus_rest(lens, m);
        assert(lens.subrange(m, m) =~= Seq::<int>::empty());
        assert(data.subrange(0, data.len() as int) =~= data);
        assert(ms =~= Seq::new(m as nat, |k: int| piece(data, k)));
    }
}

/// Where the writer puts the data region.
proof fn lemma_written_image_layout(manifest_plain: Seq<u8>, plan: DedupPlan, opts: PackOptions)
    requires
        opts.aead_key is None,
        plan_sized(plan, false),
        HEADER_LEN + manifest_plain.len() + plan.entries@.len() * ENTRY_SIZE + c_prefix(
            plan.entries@,
            plan.entries@.len() as int,
        ) + TAIL_LEN <= u64::MAX,
        blake3_of(manifest_plain).len() == 32,
        blake3_of(table_encode(placed_all(plan.entries@, sb_of(manifest_plain, plan, opts).data_off as int))).len()
            == 32,
        blake3_of(concat(payload_views(plan.payloads@))).len() == 32,
    ensures
        ({
            let doff = sb_of(manifest_plain, plan, opts).data_off as int;
            let total = c_prefix(plan.entries@, plan.entries@.len() as int);
            let img = image_of(manifest_plain, plan, opts);
            img.subrange(doff, doff + total) == concat(payload_views(plan.payloads@)) && doff + total + TAIL_LEN
                == img.len()
        }),
{
    lemma_pow256_8();
    let n = plan.entries@.len() as int;
    let sb = sb_of(manifest_plain, plan, opts);
    let doff = sb.data_off as int;
    let entries = placed_all(plan.entries@, doff);
    let tp = table_encode(entries);
    let payloads = payload_views(plan.payloads@);
    let total = c_prefix(plan.entries@, n);
    let tb = tail_bytes(
        blake3_of(manifest_plain),
        blake3_of(tp),
        blake3_of(concat(payloads)),
        sat_sum_u(plan.entries@),
        sat_sum_len(payloads),
    );
    let img = image_of(manifest_plain, plan, opts);
    assert(img == sb_encode(sb) + manifest_plain + tp + concat(payloads) + tb) by {
        assert(data_regions(None, opts.key_salt@, payloads) =~= payloads);
    }
    assert(concat(payloads).len() == total) by {
        lemma_prefix_len(plan, n);
        assert(payloads.subrange(0, n) =~= payloads);
    }
    lemma_table_len(entries);
    assert(tb.len() == TAIL_LEN) by {
        lemma_le_enc_len(sat_sum_u(plan.entries@) as nat, 8);
        lemma_le_enc_len(sat_sum_len(payloads) as nat, 8);
    }
    assert(sb_encode(sb).len() == HEADER_LEN) by {
        lemma_superblock_round_trip(sb, Seq::empty());
    }
    assert(doff == HEADER_LEN + manifest_plain.len() + n * 32);
    assert(img.subrange(doff, doff + total) =~= concat(payloads));
}

/// Two chunk records that hold the same values.
pub open spec fn same_chunk(a: crate::plan::NewChunk, b: crate::plan::NewChunk) -> bool {
    &&& a.hash@ == b.hash@
    &&& a.payload@ == b.payload@
    &&& a.codec == b.codec
    &&& a.u_size == b.u_size
    &&& a.file_off == b.file_off
}

pub open spec fn same_records(f1: Seq<Vec<crate::plan::NewChunk>>, f2: Seq<Vec<crate::plan::NewChunk>>) -> bool {
    &&& f1.len() == f2.len()
    &&& forall|f: int| 0 <= f < f1.len() ==> (#[trigger] f1[f])@.len() == f2[f]@.len()
    &&& forall|f: int, k: int|
        0 <= f < f1.len() && 0 <= k < f1[f]@.len() ==> same_chunk(
            #[trigger] crate::plan::chunk_at(f1, f, k),
            crate::plan::chunk_at(f2, f, k),
        )
}

/// The dedup contract reads only the values of the chunk records.
proof fn lemma_dedup_ok_same_records(
    f1: Seq<Vec<crate::plan::NewChunk>>,
    f2: Seq<Vec<crate::plan::NewChunk>>,
    sealed: bool,
    r: DedupPlan,
)
    requires
        same_records(f1, f2),
        crate::plan::dedup_ok(f2, sealed, r),
    ensures
        crate::plan::dedup_ok(f1, sealed, r),
{
    let n = r.entries@.len();
    assert forall|id: int| 0 <= id < n implies {
        let src = #[trigger] r.sources@[id];
        let c = crate::plan::chunk_at(f1, src.0 as int, src.1 as int);
        &&& crate::plan::valid_pos(f1, src)
        &&& r.hashes@[id]@ == c.hash@
        &&& r.payloads@[id]@ == c.payload@
        &&& r.entries@[id] == crate::plan::planned_entry(c, sealed)
    } by {
        let src = r.sources@[id];
        assert(crate::plan::valid_pos(f2, src));
        assert(same_chunk(crate::plan::chunk_at(f1, src.0 as int, src.1 as int), crate::plan::chunk_at(f2, src.0 as int, src.1 as int)));
    }
    assert forall|f: int, k: int|
        0 <= f < f1.len() && 0 <= k < f1[f]@.len() implies crate::plan::ref_ok(f1, r, f, k, #[trigger] r.refs@[f]@[k]) by {
        assert(crate::plan::ref_ok(f2, r, f, k, r.refs@[f]@[k]));
        assert(same_chunk(crate::plan::chunk_at(f1, f, k), crate::plan::chunk_at(f2, f, k)));
    }
    assert forall|f: int| 0 <= f < f1.len() implies #[trigger] r.refs@[f]@.len() == f1[f]@.len() by {
        assert(r.refs@[f]@.len() == f2[f]@.len());
    }
    assert forall|id: int, f: int, k: int|
        0 <= id < n && 0 <= f < f1.len() && 0 <= k < f1[f]@.len() && crate::plan::before_source(
            f,
            k,
            #[trigger] r.sources@[id],
        ) implies #[trigger] crate::plan::chunk_at(f1, f, k).hash@ != r.hashes@[id]@ by {
        assert(same_chunk(crate::plan::chunk_at(f1, f, k), crate::plan::chunk_at(f2, f, k)));
        assert(crate::plan::chunk_at(f2, f, k).hash@ != r.hashes@[id]@);
    }
}

/// Packing is deterministic: two plans of the same sorted inputs under the same options have
/// the same manifest, and with the same manifest bytes they give byte-identical containers,
/// sealed or not.
pub proof fn lemma_pack_deterministic(
    files: Seq<crate::pack::InputFile>,
    dirs: Seq<crate::pack::InputDir>,
    created: i64,
    opts: PackOptions,
    r1: crate::pack::PackPlan,
    r2: crate::pack::PackPlan,
    manifest_plain: Seq<u8>,
)
    requires
        crate::pack::pack_plan_ok(files, dirs, created, opts, r1),
        crate::pack::pack_plan_ok(files, dirs, created, opts, r2),
    ensures
        r1.manifest.files@.len() == r2.manifest.files@.len(),
        forall|i: int|
            0 <= i < r1.manifest.files@.len() ==> (#[trigger] r1.manifest.files@[i]).chunk_refs@
                == r2.manifest.files@[i].chunk_refs@ && r1.manifest.files@[i].path@ == r2.manifest.files@[i].path@
                && r1.manifest.files@[i].mode == r2.manifest.files@[i].mode && r1.manifest.files@[i].mtime
                == r2.manifest.files@[i].mtime && r1.manifest.files@[i].u_size == r2.manifest.files@[i].u_size,
        image_of(manifest_plain, r1.chunks, opts) == image_of(manifest_plain, r2.chunks, opts),
{
    let p1 = r1.planned@;
    let p2 = r2.planned@;
    assert forall|f: int| 0 <= f < p1.len() implies (#[trigger] p1[f])@.len() == p2[f]@.len() by {
        let _ = r1.manifest.files@[f];
        let _ = r2.manifest.files@[f];
    }
    assert forall|f: int, k: int|
        0 <= f < p1.len() && 0 <= k < p1[f]@.len() implies same_chunk(
        #[trigger] crate::plan::chunk_at(p1, f, k),
        crate::plan::chunk_at(p2, f, k),
    ) by {
        let _ = r1.manifest.files@[f];
        let _ = r2.manifest.files@[f];
        let _ = p1[f]@[k];
        let _ = p2[f]@[k];
    }
    lemma_dedup_ok_same_records(p1, p2, opts.aead_key.is_some(), r2.chunks);
    crate::plan::lemma_dedup_deterministic(p1, opts.aead_key.is_some(), r1.chunks, r2.chunks);
    lemma_same_records_same_image(manifest_plain, p1, opts, r1.chunks, r2.chunks);
    assert forall|i: int| 0 <= i < r1.manifest.files@.len() implies (#[trigger] r1.manifest.files@[i]).chunk_refs@
        == r2.manifest.files@[i].chunk_refs@ by {
        let _ = r2.manifest.files@[i];
        assert(r1.chunks.refs@[i]@ =~= r2.chunks.refs@[i]@) by {
            assert forall|k: int| 0 <= k < r1.chunks.refs@[i]@.len() implies r1.chunks.refs@[i]@[k] == r2.chunks.refs@[i]@[k] by {
                assert(r1.chunks.refs@[i]@.len() == p1[i]@.len());
            }
        }
    }
}

} // verus!
