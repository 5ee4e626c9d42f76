//! The container writer: region sealing, layout, and the byte image of a container.
use vstd::prelude::*;
use crate::chunktab::{table_encode, write_table, ChunkEntry, ENTRY_SIZE};
use crate::codec::copy_bytes;
use crate::crypto::{aead_seal, blake3_digest, blake3_of, xchacha_seal, AEAD_MAX_PLAIN, TAG_LEN};
use crate::error::{ArxError, FormatError};
use crate::le::{le_enc, lemma_pow256_8, put_le};
use crate::plan::DedupPlan;
use crate::superblock::{sb_encode, Superblock, FLAG_ENCRYPTED, HEADER_LEN, VERSION};
use crate::tail::{tail_encode, TailSummary};

verus! {

/// AEAD domains of a container, with their nonce tags.
#[derive(Debug, Clone, Copy, PartialEq, Eq, Structural)]
pub enum Region {
    Manifest,
    ChunkTable,
    ChunkData,
}

impl Region {
    pub open spec fn spec_tag(self) -> u8 {
        match self {
            Region::Manifest => 1,
            Region::ChunkTable => 2,
            Region::ChunkData => 3,
        }
    }

    /// The associated-data label of the region.
    pub open spec fn spec_label(self) -> Seq<u8> {
        match self {
            Region::Manifest => seq![109u8, 97u8, 110u8, 105u8, 102u8, 101u8, 115u8, 116u8],
            Region::ChunkTable => seq![99u8, 104u8, 117u8, 110u8, 107u8, 116u8, 97u8, 98u8],
            Region::ChunkData => seq![99u8, 104u8, 117u8, 110u8, 107u8],
        }
    }

    /// `"manifest"`, `"chunktab"` or `"chunk"`.
    pub fn label(&self) -> (r: Vec<u8>)
        ensures
            r@ == self.spec_label(),
    {
        let mut v: Vec<u8> = Vec::new();
        match self {
            Region::Manifest => {
                v.push(109u8);
                v.push(97u8);
                v.push(110u8);
                v.push(105u8);
                v.push(102u8);
                v.push(101u8);
                v.push(115u8);
                v.push(116u8);
            },
            Region::ChunkTable => {
                v.push(99u8);
                v.push(104u8);
                v.push(117u8);
                v.push(110u8);
                v.push(107u8);
                v.push(116u8);
                v.push(97u8);
                v.push(98u8);
            },
            Region::ChunkData => {
                v.push(99u8);
                v.push(104u8);
                v.push(117u8);
                v.push(110u8);
                v.push(107u8);
            },
        }
        assert(v@ =~= self.spec_label());
        v
    }
}

/// `blake3(salt ++ region ++ counter_le64)[..24]`.
pub open spec fn nonce_of(salt: Seq<u8>, region: Region, counter: u64) -> Seq<u8> {
    blake3_of(salt + seq![region.spec_tag()] + le_enc(counter as nat, 8)).subrange(0, 24)
}

/// The on-disk bytes of a region: sealed with its nonce and label, or the plaintext itself.
pub open spec fn region_bytes(
    key: Option<[u8; 32]>,
    salt: Seq<u8>,
    region: Region,
    counter: u64,
    plain: Seq<u8>,
) -> Seq<u8> {
    match key {
        Some(k) => xchacha_seal(k@, nonce_of(salt, region, counter), region.spec_label(), plain),
        None => plain,
    }
}

/// The first 24 bytes of a 32-byte digest.
fn take24(d: &[u8; 32]) -> (r: [u8; 24])
    ensures
        r@ == d@.subrange(0, 24),
{
    let mut a: [u8; 24] = [0u8; 24];
    let mut i: usize = 0;
    while i < 24
        invariant
            i <= 24,
            a@.len() == 24,
            d@.len() == 32,
            forall|j: int| 0 <= j < i ==> a@[j] == d@[j],
        decreases 24 - i,
    {
        a[i] = d[i];
        i = i + 1;
    }
    assert(a@ =~= d@.subrange(0, 24));
    a
}

/// Derives the nonce of a container region.
pub fn derive_nonce(key_salt: &[u8; 32], region: Region, counter: u64) -> (r: [u8; 24])
    ensures
        r@ == nonce_of(key_salt@, region, counter),
{
    proof {
        lemma_pow256_8();
    }
    let mut input: Vec<u8> = Vec::new();
    crate::tail::push_bytes32(&mut input, key_salt);
    let tag: u8 = match region {
        Region::Manifest => 1,
        Region::ChunkTable => 2,
        Region::ChunkData => 3,
    };
    input.push(tag);
    put_le(&mut input, counter, 8);
    assert(input@ =~= key_salt@ + seq![region.spec_tag()] + le_enc(counter as nat, 8));
    let d = blake3_digest(input.as_slice());
    take24(&d)
}

/// Seals a region, or copies it when there is no key.
pub fn seal_region(key: &Option<[u8; 32]>, salt: &[u8; 32], region: Region, counter: u64, plain: &[u8]) -> (r:
    Vec<u8>)
    requires
        plain@.len() <= AEAD_MAX_PLAIN,
    ensures
        r@ == region_bytes(*key, salt@, region, counter, plain@),
        r@.len() == plain@.len() + if key.is_some() { TAG_LEN } else { 0 },
{
    match key {
        Some(k) => {
            let nonce = derive_nonce(salt, region, counter);
            let label = region.label();
            match aead_seal(k, &nonce, label.as_slice(), plain) {
                Some(c) => c,
                None => Vec::new(),
            }
        },
        None => copy_bytes(plain),
    }
}

/// The sum of the `c_size` of the first `i` entries.
pub open spec fn c_prefix(es: Seq<ChunkEntry>, i: int) -> int
    decreases i,
{
    if i <= 0 {
        0
    } else {
        c_prefix(es, i - 1) + es[i - 1].c_size
    }
}

/// `e` placed at `off`.
pub open spec fn placed(e: ChunkEntry, off: int) -> ChunkEntry {
    ChunkEntry { data_off: off as u64, ..e }
}

/// The entries as laid out from `data_off`: each starts where the previous ends.
pub open spec fn laid_out(before: Seq<ChunkEntry>, after: Seq<ChunkEntry>, data_off: int) -> bool {
    &&& after.len() == before.len()
    &&& forall|i: int|
        0 <= i < before.len() ==> #[trigger] after[i] == placed(before[i], data_off + c_prefix(before, i))
}

/// Assigns each entry its absolute data offset, starting at `data_off`.
pub fn assign_offsets(entries: &mut Vec<ChunkEntry>, data_off: u64) -> (r: Result<u64, ArxError>)
    ensures
        data_off + c_prefix(old(entries)@, old(entries)@.len() as int) <= u64::MAX ==> (r matches Ok(end)
            && end == data_off + c_prefix(old(entries)@, old(entries)@.len() as int) && laid_out(
            old(entries)@,
            final(entries)@,
            data_off as int,
        )),
        data_off + c_prefix(old(entries)@, old(entries)@.len() as int) > u64::MAX ==> r == Err::<
            u64,
            ArxError,
        >(ArxError::Format(FormatError::Overflow)),
{
    let ghost before = entries@;
    let mut cursor: u64 = data_off;
    let mut i: usize = 0;
    while i < entries.len()
        invariant
            before == old(entries)@,
            i <= entries@.len(),
            entries@.len() == before.len(),
            cursor == data_off + c_prefix(before, i as int),
            forall|j: int|
                0 <= j < i ==> #[trigger] entries@[j] == placed(before[j], data_off + c_prefix(before, j)),
            forall|j: int| i <= j < before.len() ==> #[trigger] entries@[j] == before[j],
        decreases entries@.len() - i,
    {
        let e = entries[i];
        match cursor.checked_add(e.c_size) {
            Some(next) => {
                entries.set(i, ChunkEntry { data_off: cursor, ..e });
                cursor = next;
            },
            None => {
                proof {
                    assert(e == before[i as int]);
                    assert(c_prefix(before, i + 1) == c_prefix(before, i as int) + before[i as int].c_size);
                    lemma_c_prefix_mono(before, i + 1, before.len() as int);
                }
                return Err(ArxError::Format(FormatError::Overflow));
            },
        }
        i = i + 1;
    }
    Ok(cursor)
}

proof fn lemma_c_prefix_mono(es: Seq<ChunkEntry>, i: int, j: int)
    requires
        0 <= i <= j <= es.len(),
    ensures
        c_prefix(es, i) <= c_prefix(es, j),
    decreases j - i,
{
    if i < j {
        lemma_c_prefix_mono(es, i, j - 1);
    }
}

/// Options of the writer. The gain is in parts per million (50000 is 5%); 0 means the default.
#[derive(Debug, Clone, Copy)]
pub struct PackOptions {
    /// Zero all timestamps, so that the output is a function of the input bytes.
    pub deterministic: bool,
    pub min_gain_ppm: u64,
    /// Raw 32-byte key: when present, all three regions are sealed.
    pub aead_key: Option<[u8; 32]>,
    /// Salt of the nonce derivation; all-zero for reproducible sealed archives.
    pub key_salt: [u8; 32],
}

/// The concatenation of a sequence of byte strings.
pub open spec fn concat(parts: Seq<Seq<u8>>) -> Seq<u8>
    decreases parts.len(),
{
    if parts.len() == 0 {
        Seq::empty()
    } else {
        concat(parts.drop_last()) + parts.last()
    }
}

pub open spec fn payload_views(p: Seq<Vec<u8>>) -> Seq<Seq<u8>> {
    p.map_values(|v: Vec<u8>| v@)
}

/// The data region: each payload as stored, in id order.
pub open spec fn data_regions(key: Option<[u8; 32]>, salt: Seq<u8>, payloads: Seq<Seq<u8>>) -> Seq<Seq<u8>> {
    Seq::new(
        payloads.len(),
        |i: int| region_bytes(key, salt, Region::ChunkData, i as u64, payloads[i]),
    )
}

/// `a + b`, or `u64::MAX` when that overflows.
pub open spec fn sat_add(a: u64, b: u64) -> u64 {
    if a + b > u64::MAX {
        u64::MAX
    } else {
        (a + b) as u64
    }
}

pub open spec fn sat_sum_u(es: Seq<ChunkEntry>) -> u64
    decreases es.len(),
{
    if es.len() == 0 {
        0
    } else {
        sat_add(sat_sum_u(es.drop_last()), es.last().u_size)
    }
}

pub open spec fn sat_sum_len(ps: Seq<Seq<u8>>) -> u64
    decreases ps.len(),
{
    if ps.len() == 0 {
        0
    } else {
        sat_add(sat_sum_len(ps.drop_last()), ps.last().len() as u64)
    }
}

/// The entries laid out from `data_off`, one after the other.
pub open spec fn placed_all(es: Seq<ChunkEntry>, data_off: int) -> Seq<ChunkEntry> {
    Seq::new(es.len(), |i: int| placed(es[i], data_off + c_prefix(es, i)))
}

/// The 120 tail bytes holding these digests and totals.
pub open spec fn tail_bytes(mh: Seq<u8>, th: Seq<u8>, dh: Seq<u8>, tu: u64, tc: u64) -> Seq<u8> {
    crate::tail::tail_magic() + mh + th + dh + le_enc(tu as nat, 8) + le_enc(tc as nat, 8)
}

/// The superblock of the image: the manifest region right after the header, then the chunk
/// table, then the data.
pub open spec fn sb_of(manifest_plain: Seq<u8>, plan: DedupPlan, opts: PackOptions) -> Superblock {
    let mlen = region_bytes(opts.aead_key, opts.key_salt@, Region::Manifest, 0, manifest_plain).len();
    let n = plan.entries@.len();
    let cto = HEADER_LEN + mlen;
    Superblock {
        version: VERSION,
        manifest_len: mlen as u64,
        chunk_table_off: cto as u64,
        chunk_count: n as u64,
        data_off: (cto + n * ENTRY_SIZE + if opts.aead_key.is_some() { TAG_LEN } else { 0 }) as u64,
        flags: if opts.aead_key.is_some() { FLAG_ENCRYPTED } else { 0 },
    }
}

/// The container image that `write_image` produces: superblock, manifest region, chunk-table
/// region, data region (each payload sealed with its id as counter) and tail, whose digests are
/// those of the manifest plaintext, the table plaintext and the concatenated payloads.
pub open spec fn image_of(manifest_plain: Seq<u8>, plan: DedupPlan, opts: PackOptions) -> Seq<u8> {
    let key = opts.aead_key;
    let salt = opts.key_salt@;
    let payloads = payload_views(plan.payloads@);
    let sb = sb_of(manifest_plain, plan, opts);
    let entries = placed_all(plan.entries@, sb.data_off as int);
    sb_encode(sb) + region_bytes(key, salt, Region::Manifest, 0, manifest_plain) + region_bytes(
        key,
        salt,
        Region::ChunkTable,
        0,
        table_encode(entries),
    ) + concat(data_regions(key, salt, payloads)) + tail_bytes(
        blake3_of(manifest_plain),
        blake3_of(table_encode(entries)),
        blake3_of(concat(payloads)),
        sat_sum_u(plan.entries@),
        sat_sum_len(payloads),
    )
}

/// The entries of a plan are sized for its payloads: `c_size` is the payload length, plus the
/// tag when sealed.
pub open spec fn plan_sized(plan: DedupPlan, sealed: bool) -> bool {
    &&& plan.payloads@.len() == plan.entries@.len()
    &&& forall|i: int|
        0 <= i < plan.entries@.len() ==> (#[trigger] plan.entries@[i]).c_size == plan.payloads@[i]@.len()
            + if sealed { TAG_LEN } else { 0 }
}

/// Whether the regions of a container fit: each sealable region below the AEAD limit, and every
/// offset of the image, tail included, within 64 bits.
pub open spec fn image_fits(manifest_plain: Seq<u8>, plan: DedupPlan, opts: PackOptions) -> bool {
    let tag = if opts.aead_key.is_some() { TAG_LEN } else { 0 };
    &&& manifest_plain.len() <= AEAD_MAX_PLAIN
    &&& plan.entries@.len() * ENTRY_SIZE <= AEAD_MAX_PLAIN
    &&& forall|i: int| 0 <= i < plan.payloads@.len() ==> (#[trigger] plan.payloads@[i])@.len() <= AEAD_MAX_PLAIN
    &&& HEADER_LEN + manifest_plain.len() + tag + plan.entries@.len() * ENTRY_SIZE + tag + c_prefix(
        plan.entries@,
        plan.entries@.len() as int,
    ) <= u64::MAX
}

/// When the regions fit, the chunk table fits after the manifest.
proof fn lemma_fits_needs_table(manifest_plain: Seq<u8>, plan: DedupPlan, opts: PackOptions)
    ensures
        image_fits(manifest_plain, plan, opts) ==> HEADER_LEN + manifest_plain.len() + (if opts.aead_key.is_some() {
            TAG_LEN
        } else {
            0
        }) + plan.entries@.len() * ENTRY_SIZE + (if opts.aead_key.is_some() { TAG_LEN } else { 0 }) <= u64::MAX,
{
    if image_fits(manifest_plain, plan, opts) {
        lemma_c_prefix_mono(plan.entries@, 0, plan.entries@.len() as int);
    }
}

/// Produces the bytes of a container holding `manifest_plain` and the chunks of `plan`.
/// It fails, with `Overflow`, exactly when the regions do not fit.
pub fn write_image(manifest_plain: &[u8], plan: &DedupPlan, opts: &PackOptions) -> (r: Result<
    Vec<u8>,
    ArxError,
>)
    requires
        plan_sized(*plan, opts.aead_key.is_some()),
    ensures
        r matches Ok(img) ==> img@ == image_of(manifest_plain@, *plan, *opts),
        r matches Err(e) ==> e == ArxError::Format(FormatError::Overflow),
        image_fits(manifest_plain@, *plan, *opts) ==> r is Ok,
{
    let sealed = opts.aead_key.is_some();
    if manifest_plain.len() as u64 > AEAD_MAX_PLAIN {
        return Err(ArxError::Format(FormatError::Overflow));
    }
    let mreg = seal_region(&opts.aead_key, &opts.key_salt, Region::Manifest, 0, manifest_plain);
    let manifest_len = mreg.len() as u64;
    let chunk_table_off = HEADER_LEN + manifest_len;
    let count = plan.entries.len() as u64;
    let tag: u64 = if sealed { TAG_LEN } else { 0 };
    if count > AEAD_MAX_PLAIN / ENTRY_SIZE || count > (u64::MAX - chunk_table_off - tag) / ENTRY_SIZE {
        proof {
            lemma_fits_needs_table(manifest_plain@, *plan, *opts);
        }
        return Err(ArxError::Format(FormatError::Overflow));
    }
    assert(count * ENTRY_SIZE + tag <= u64::MAX - chunk_table_off) by (nonlinear_arith)
        requires
            count <= (u64::MAX - chunk_table_off - tag) / 32,
            chunk_table_off + tag <= u64::MAX,
    ;
    let table_len: u64 = count * ENTRY_SIZE + tag;
    let data_off = chunk_table_off + table_len;
    let mut entries = plan.entries.clone();
    assert(entries@ =~= plan.entries@);
    match assign_offsets(&mut entries, data_off) {
        Ok(_) => {},
        Err(e) => {
            proof {
                assert(data_off == HEADER_LEN + manifest_plain@.len() + tag + plan.entries@.len() * ENTRY_SIZE + tag);
            }
            return Err(e);
        },
    }
    let table_plain = write_table(entries.as_slice());
    proof {
        crate::chunktab::lemma_table_len(entries@);
    }
    let treg = seal_region(&opts.aead_key, &opts.key_salt, Region::ChunkTable, 0, table_plain.as_slice());
    assert(treg@.len() == table_len);
    let sb = Superblock {
        version: VERSION,
        manifest_len,
        chunk_table_off,
        chunk_count: count,
        data_off,
        flags: if sealed { FLAG_ENCRYPTED } else { 0 },
    };
    let mut img = sb.write_to();
    let ghost head = img@;
    img.extend_from_slice(mreg.as_slice());
    img.extend_from_slice(treg.as_slice());
    assert(img@ =~= head + mreg@ + treg@);
    let ghost before_data = img@;
    let ghost payloads = payload_views(plan.payloads@);
    let mut plain_all: Vec<u8> = Vec::new();
    let mut total_u: u64 = 0;
    let mut total_c: u64 = 0;
    let mut id: usize = 0;
    while id < plan.payloads.len()
        invariant
            plan_sized(*plan, sealed),
            sealed == opts.aead_key.is_some(),
            payloads == payload_views(plan.payloads@),
            id <= plan.payloads@.len(),
            img@ == before_data + concat(data_regions(opts.aead_key, opts.key_salt@, payloads.subrange(0, id as int))),
            plain_all@ == concat(payloads.subrange(0, id as int)),
            total_u == sat_sum_u(plan.entries@.subrange(0, id as int)),
            total_c == sat_sum_len(payloads.subrange(0, id as int)),
        decreases plan.payloads@.len() - id,
    {
        let p = &plan.payloads[id];
        let e = plan.entries[id];
        if p.len() as u64 > AEAD_MAX_PLAIN {
            assert(!image_fits(manifest_plain@, *plan, *opts)) by {
                assert(plan.payloads@[id as int]@.len() > AEAD_MAX_PLAIN);
            }
            return Err(ArxError::Format(FormatError::Overflow));
        }
        let reg = seal_region(&opts.aead_key, &opts.key_salt, Region::ChunkData, id as u64, p.as_slice());
        let ghost prev_img = img@;
        let ghost prev_plain = plain_all@;
        img.extend_from_slice(reg.as_slice());
        plain_all.extend_from_slice(p.as_slice());
        total_u = total_u.saturating_add(e.u_size);
        total_c = total_c.saturating_add(p.len() as u64);
        proof {
            let pre = payloads.subrange(0, id as int);
            let post = payloads.subrange(0, id + 1);
            assert(post.drop_last() =~= pre);
            assert(payloads[id as int] == p@);
            let dpre = data_regions(opts.aead_key, opts.key_salt@, pre);
            let dpost = data_regions(opts.aead_key, opts.key_salt@, post);
            assert(dpost.drop_last() =~= dpre);
            assert(img@ =~= prev_img + reg@);
            assert(plain_all@ =~= prev_plain + p@);
            let epost = plan.entries@.subrange(0, id + 1);
            assert(epost.drop_last() =~= plan.entries@.subrange(0, id as int));
        }
        id = id + 1;
    }
    proof {
        assert(payloads.subrange(0, id as int) =~= payloads);
        assert(plan.entries@.subrange(0, id as int) =~= plan.entries@);
    }
    let tail = TailSummary {
        manifest_blake3: blake3_digest(manifest_plain),
        chunktab_blake3: blake3_digest(table_plain.as_slice()),
        data_blake3: blake3_digest(plain_all.as_slice()),
        total_u,
        total_c,
    };
    let tb = tail.write_to();
    img.extend_from_slice(tb.as_slice());
    proof {
        assert(img@ =~= sb_encode(sb) + mreg@ + treg@ + concat(
            data_regions(opts.aead_key, opts.key_salt@, payloads),
        ) + tail_encode(tail));
        assert(entries@ =~= placed_all(plan.entries@, data_off as int));
        assert(sb == sb_of(manifest_plain@, *plan, *opts));
    }
    Ok(img)
}

} // verus!
