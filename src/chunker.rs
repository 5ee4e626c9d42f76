//! Content-defined chunking: a rolling hash over the last 64 bytes picks the boundaries.
//!
//! The hash doubles and adds a per-byte value modulo 2^64, so a byte stops counting
//! 64 bytes later. A boundary falls after the first byte, at or past `MIN_CHUNK`,
//! where the low 18 bits of the hash are zero; no chunk is longer than `MAX_CHUNK`.
use vstd::prelude::*;

verus! {

pub const MIN_CHUNK: u64 = 65536;

pub const AVG_CHUNK: u64 = 262144;

pub const MAX_CHUNK: u64 = 1048576;

/// The per-byte value that the rolling hash adds.
pub open spec fn mix(b: u8) -> int {
    ((b as int + 1) * 0x9E37_79B9_7F4A_7C15) % 0x1_0000_0000_0000_0000
}

/// One step of the rolling hash.
#[verifier::opaque]
pub open spec fn roll(h: int, b: u8) -> int {
    (h * 2 + mix(b)) % 0x1_0000_0000_0000_0000
}

/// The hash after the first `i` bytes of `s`.
pub open spec fn hash_prefix(s: Seq<u8>, i: int) -> int
    decreases i,
{
    if i <= 0 {
        0
    } else {
        roll(hash_prefix(s, i - 1), s[i - 1])
    }
}

pub open spec fn is_boundary(h: int) -> bool {
    h % (AVG_CHUNK as int) == 0
}

/// The first cut after position `i`, at most `bound`.
pub open spec fn scan(s: Seq<u8>, i: int, bound: int) -> int
    decreases bound - i,
{
    if i >= bound {
        bound
    } else if i + 1 >= MIN_CHUNK && is_boundary(hash_prefix(s, i + 1)) {
        i + 1
    } else {
        scan(s, i + 1, bound)
    }
}

/// The length of the first chunk of `s`.
pub open spec fn cut_len(s: Seq<u8>) -> int {
    if s.len() <= MIN_CHUNK {
        s.len() as int
    } else {
        scan(s, 0, if s.len() < MAX_CHUNK { s.len() as int } else { MAX_CHUNK as int })
    }
}

/// The lengths of the chunks that `s` splits into, in order.
pub open spec fn chunk_lens(s: Seq<u8>) -> Seq<int>
    decreases s.len(),
{
    let c = cut_len(s);
    if s.len() == 0 || c <= 0 || c > s.len() {
        Seq::empty()
    } else {
        seq![c] + chunk_lens(s.subrange(c, s.len() as int))
    }
}

/// The sum of a sequence of lengths.
pub open spec fn sum(l: Seq<int>) -> int
    decreases l.len(),
{
    if l.len() == 0 {
        0
    } else {
        l[0] + sum(l.drop_first())
    }
}

pub proof fn lemma_scan_range(s: Seq<u8>, i: int, bound: int)
    requires
        i < bound,
    ensures
        i < scan(s, i, bound) <= bound,
        scan(s, i, bound) == bound || scan(s, i, bound) >= MIN_CHUNK,
    decreases bound - i,
{
    if !(i + 1 >= MIN_CHUNK && is_boundary(hash_prefix(s, i + 1))) {
        if i + 1 < bound {
            lemma_scan_range(s, i + 1, bound);
        } else {
            assert(scan(s, i + 1, bound) == bound);
        }
    }
}

/// A non-empty input gives a first chunk of 1 to `MAX_CHUNK` bytes, and of at least
/// `MIN_CHUNK` bytes unless it is the whole input.
pub proof fn lemma_cut_len_bounds(s: Seq<u8>)
    requires
        s.len() > 0,
    ensures
        0 < cut_len(s) <= s.len(),
        cut_len(s) <= MAX_CHUNK,
        cut_len(s) == s.len() || cut_len(s) >= MIN_CHUNK,
{
    if s.len() > MIN_CHUNK {
        let bound = if s.len() < MAX_CHUNK { s.len() as int } else { MAX_CHUNK as int };
        lemma_scan_range(s, 0, bound);
    }
}

/// The hash after `i` bytes depends on those bytes alone.
pub proof fn lemma_hash_prefix_local(s: Seq<u8>, t: Seq<u8>, i: int)
    requires
        0 <= i <= s.len(),
        i <= t.len(),
        s.subrange(0, i) == t.subrange(0, i),
    ensures
        hash_prefix(s, i) == hash_prefix(t, i),
    decreases i,
{
    if i > 0 {
        assert(s.subrange(0, i - 1) =~= s.subrange(0, i).subrange(0, i - 1));
        assert(t.subrange(0, i - 1) =~= t.subrange(0, i).subrange(0, i - 1));
        assert(s[i - 1] == s.subrange(0, i)[i - 1]);
        assert(t[i - 1] == t.subrange(0, i)[i - 1]);
        lemma_hash_prefix_local(s, t, i - 1);
    }
}

proof fn lemma_scan_local(s: Seq<u8>, t: Seq<u8>, i: int, bound: int)
    requires
        0 <= i,
        bound <= s.len(),
        bound <= t.len(),
        s.subrange(0, bound) == t.subrange(0, bound),
    ensures
        scan(s, i, bound) == scan(t, i, bound),
    decreases bound - i,
{
    if i < bound {
        assert(s.subrange(0, i + 1) =~= s.subrange(0, bound).subrange(0, i + 1));
        assert(t.subrange(0, i + 1) =~= t.subrange(0, bound).subrange(0, i + 1));
        lemma_hash_prefix_local(s, t, i + 1);
        lemma_scan_local(s, t, i + 1, bound);
    }
}

/// Boundaries depend only on the bytes of the window being cut: two inputs that agree on
/// their first `MAX_CHUNK` bytes (or are equal up to a shorter end) cut at the same place,
/// however the input was buffered.
pub proof fn lemma_cut_is_local(s: Seq<u8>, t: Seq<u8>)
    requires
        s.len() >= MAX_CHUNK,
        t.len() >= MAX_CHUNK,
        s.subrange(0, MAX_CHUNK as int) == t.subrange(0, MAX_CHUNK as int),
    ensures
        cut_len(s) == cut_len(t),
{
    lemma_scan_local(s, t, 0, MAX_CHUNK as int);
}

/// One step of the rolling hash on machine integers.
fn roll_exec(h: u64, b: u8) -> (r: u64)
    ensures
        r as int == roll(h as int, b),
{
    reveal(roll);
    let m: u128 = ((b as u128 + 1) * 0x9E37_79B9_7F4A_7C15u128) % 0x1_0000_0000_0000_0000u128;
    (((h as u128) * 2 + m) % 0x1_0000_0000_0000_0000u128) as u64
}

/// The length of the first chunk of `data[start..]`.
pub fn cut_point(data: &[u8], start: usize) -> (r: usize)
    requires
        start <= data@.len(),
    ensures
        r as int == cut_len(data@.subrange(start as int, data@.len() as int)),
{
    let ghost t = data@.subrange(start as int, data@.len() as int);
    let n: usize = data.len() - start;
    if n as u64 <= MIN_CHUNK {
        return n;
    }
    let bound: usize = if (n as u64) < MAX_CHUNK { n } else { MAX_CHUNK as usize };
    let mut h: u64 = 0;
    let mut i: usize = 0;
    assert(cut_len(t) == scan(t, 0, bound as int));
    while i < bound
        invariant
            i <= bound,
            bound <= n,
            n == t.len(),
            start + n == data.len(),
            t == data@.subrange(start as int, data@.len() as int),
            h as int == hash_prefix(t, i as int),
            scan(t, 0, bound as int) == scan(t, i as int, bound as int),
            cut_len(t) == scan(t, 0, bound as int),
        decreases bound - i,
    {
        assert(t[i as int] == data@[start + i]);
        h = roll_exec(h, data[start + i]);
        assert(h as int == hash_prefix(t, i + 1));
        if i as u64 + 1 >= MIN_CHUNK && h % 262144 == 0 {
            assert(scan(t, i as int, bound as int) == i + 1);
            return i + 1;
        }
        assert(scan(t, i as int, bound as int) == scan(t, i + 1, bound as int));
        i = i + 1;
    }
    bound
}

/// The chunk lengths of `data`, in order.
pub fn split_lens(data: &[u8]) -> (r: Vec<usize>)
    ensures
        r@.len() == chunk_lens(data@).len(),
        forall|i: int| 0 <= i < r@.len() ==> r@[i] as int == #[trigger] chunk_lens(data@)[i],
{
    let mut out: Vec<usize> = Vec::new();
    let mut pos: usize = 0;
    let ghost done: Seq<int> = Seq::empty();
    assert(data@.subrange(0, data@.len() as int) =~= data@);
    while pos < data.len()
        invariant
            pos <= data@.len(),
            out@.len() == done.len(),
            forall|i: int| 0 <= i < done.len() ==> out@[i] as int == done[i],
            done + chunk_lens(data@.subrange(pos as int, data@.len() as int)) == chunk_lens(data@),
        decreases data@.len() - pos,
    {
        let ghost rest = data@.subrange(pos as int, data@.len() as int);
        let c = cut_point(data, pos);
        proof {
            lemma_cut_len_bounds(rest);
            assert(rest.subrange(c as int, rest.len() as int) =~= data@.subrange(
                pos + c,
                data@.len() as int,
            ));
            assert(chunk_lens(rest) == seq![c as int] + chunk_lens(
                data@.subrange(pos + c, data@.len() as int),
            ));
            done = done.push(c as int);
            assert(done + chunk_lens(data@.subrange(pos + c, data@.len() as int)) =~= (done.drop_last()
                + seq![c as int]) + chunk_lens(data@.subrange(pos + c, data@.len() as int)));
        }
        out.push(c);
        pos = pos + c;
    }
    proof {
        assert(data@.subrange(pos as int, data@.len() as int).len() == 0);
        assert(done + Seq::<int>::empty() =~= done);
    }
    out
}

/// The chunks cover the input: their lengths add up to its length.
pub proof fn lemma_chunks_cover(s: Seq<u8>)
    ensures
        sum(chunk_lens(s)) == s.len(),
        forall|i: int|
            0 <= i < chunk_lens(s).len() ==> 0 < #[trigger] chunk_lens(s)[i] <= MAX_CHUNK,
    decreases s.len(),
{
    if s.len() > 0 {
        lemma_cut_len_bounds(s);
        let c = cut_len(s);
        let rest = s.subrange(c, s.len() as int);
        lemma_chunks_cover(rest);
        let l = chunk_lens(s);
        assert(l.drop_first() =~= chunk_lens(rest));
        assert forall|i: int| 0 <= i < l.len() implies 0 < #[trigger] l[i] <= MAX_CHUNK by {
            if i > 0 {
                assert(l[i] == chunk_lens(rest)[i - 1]);
            }
        }
    }
}

} // verus!
