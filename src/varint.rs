//! Unsigned LEB128 varints, as the journal and delta sidecars frame their records.
use vstd::prelude::*;

verus! {

/// The encoding of `x`: seven bits per byte, least significant first, high bit set on all but
/// the last byte.
pub open spec fn uvarint(x: nat) -> Seq<u8>
    decreases x,
{
    if x < 128 {
        seq![x as u8]
    } else {
        seq![(x % 128 + 128) as u8] + uvarint(x / 128)
    }
}

/// Outcome of reading a varint.
pub enum VarintRead {
    /// The input ended before the varint did.
    Eof,
    /// Ten bytes without an end, or a value over 64 bits.
    TooLong,
    /// The value and the number of bytes it took.
    Value(u64, usize),
}

/// Reading a varint at `pos`, after `i` bytes with value `acc` so far and weight `mul` for the next.
pub open spec fn vscan(s: Seq<u8>, pos: int, i: int, acc: int, mul: int) -> VarintRead
    decreases 10 - i,
{
    if i >= 10 {
        VarintRead::TooLong
    } else if pos + i >= s.len() {
        VarintRead::Eof
    } else {
        let b = s[pos + i];
        let acc2 = acc + (b % 128) * mul;
        if b < 128 {
            if acc2 > u64::MAX {
                VarintRead::TooLong
            } else {
                VarintRead::Value(acc2 as u64, (i + 1) as usize)
            }
        } else {
            vscan(s, pos, i + 1, acc2, mul * 128)
        }
    }
}

/// Reading a varint at `pos` of `s`.
pub open spec fn varint_at(s: Seq<u8>, pos: int) -> VarintRead {
    vscan(s, pos, 0, 0, 1)
}

pub open spec fn pow128(n: nat) -> int
    decreases n,
{
    if n == 0 {
        1
    } else {
        128 * pow128((n - 1) as nat)
    }
}

/// Appends the varint encoding of `x`.
pub fn put_uvarint(out: &mut Vec<u8>, x: u64)
    ensures
        final(out)@ == old(out)@ + uvarint(x as nat),
{
    let ghost start = out@;
    let mut v: u64 = x;
    while v >= 128
        invariant
            out@ + uvarint(v as nat) == start + uvarint(x as nat),
        decreases v,
    {
        let ghost prev = out@;
        out.push((v % 128 + 128) as u8);
        assert(out@ + uvarint((v / 128) as nat) =~= prev + uvarint(v as nat));
        v = v / 128;
    }
    let ghost prev = out@;
    out.push(v as u8);
    assert(out@ =~= prev + uvarint(v as nat));
}

/// The length of the varint encoding of `x`.
pub fn uvarint_len(x: u64) -> (r: usize)
    ensures
        r == uvarint(x as nat).len(),
        1 <= r <= 10,
{
    proof {
        lemma_uvarint_len_bound(x as nat, 10);
    }
    let mut v: u64 = x;
    let mut n: usize = 1;
    while v >= 128
        invariant
            n + uvarint(v as nat).len() == uvarint(x as nat).len() + 1,
            uvarint(x as nat).len() <= 10,
            n >= 1,
        decreases v,
    {
        v = v / 128;
        n = n + 1;
    }
    n
}

/// A number below `128^k` takes at most `k` bytes.
pub proof fn lemma_uvarint_len_bound(x: nat, k: nat)
    requires
        k >= 1,
        x < pow128(k) || k == 10,
        k == 10 ==> x <= u64::MAX,
    ensures
        uvarint(x).len() <= k,
        uvarint(x).len() >= 1,
    decreases x,
{
    if k == 10 {
        assert(pow128(10) == 0x40_0000_0000_0000_0000int) by {
            reveal_with_fuel(pow128, 11);
        }
    }
    if x >= 128 {
        let p = pow128((k - 1) as nat);
        assert(pow128(k) == 128 * p);
        assert(x / 128 < p) by (nonlinear_arith)
            requires
                x < 128 * p,
        ;
        assert(pow128(0) == 1);
        lemma_uvarint_len_bound_inner(x / 128, (k - 1) as nat);
    }
}

proof fn lemma_uvarint_len_bound_inner(x: nat, k: nat)
    requires
        x < pow128(k),
        k >= 1,
    ensures
        uvarint(x).len() <= k,
    decreases x,
{
    if x >= 128 {
        assert(pow128(0) == 1);
        let p = pow128((k - 1) as nat);
        assert(x / 128 < p) by (nonlinear_arith)
            requires
                x < 128 * p,
        ;
        lemma_uvarint_len_bound_inner(x / 128, (k - 1) as nat);
    }
}

/// Reading the encoding of `y` (followed by anything) at byte `i` of a varint gives `y`.
proof fn lemma_vscan_uvarint(s: Seq<u8>, pos: int, i: int, acc: int, mul: int, y: nat)
    requires
        0 <= pos,
        0 <= i,
        pos + i + uvarint(y).len() <= s.len(),
        s.subrange(pos + i, pos + i + uvarint(y).len()) == uvarint(y),
        i + uvarint(y).len() <= 10,
        mul > 0,
        acc >= 0,
        acc + y * mul <= u64::MAX,
    ensures
        vscan(s, pos, i, acc, mul) == VarintRead::Value((acc + y * mul) as u64, (i + uvarint(y).len()) as usize),
    decreases y,
{
    let e = uvarint(y);
    assert(s[pos + i] == e[0]);
    if y < 128 {
        assert(e[0] == y as u8);
    } else {
        let b = (y % 128 + 128) as u8;
        assert(e[0] == b);
        assert(b % 128 == y % 128);
        let rest = uvarint(y / 128);
        assert(e == seq![b] + rest);
        assert(s.subrange(pos + i + 1, pos + i + 1 + rest.len()) =~= e.subrange(1, e.len() as int));
        assert(e.subrange(1, e.len() as int) =~= rest);
        assert(acc + (y % 128) * mul + (y / 128) * (mul * 128) == acc + y * mul) by (nonlinear_arith)
            requires
                y == y % 128 + 128 * (y / 128),
        ;
        assert((y / 128) * (mul * 128) >= 0) by (nonlinear_arith)
            requires
                mul > 0,
        ;
        assert((y % 128) * mul >= 0) by (nonlinear_arith)
            requires
                mul > 0,
        ;
        lemma_vscan_uvarint(s, pos, i + 1, acc + (y % 128) * mul, mul * 128, y / 128);
    }
}

/// A varint that was written reads back as the same number and length.
pub proof fn lemma_uvarint_round_trip(s: Seq<u8>, pos: int, x: u64)
    requires
        0 <= pos,
        pos + uvarint(x as nat).len() <= s.len(),
        s.subrange(pos, pos + uvarint(x as nat).len()) == uvarint(x as nat),
    ensures
        varint_at(s, pos) == VarintRead::Value(x, uvarint(x as nat).len() as usize),
{
    lemma_uvarint_len_bound(x as nat, 10);
    lemma_vscan_uvarint(s, pos, 0, 0, 1, x as nat);
}

/// Reads the varint at `pos`.
pub fn get_uvarint(s: &[u8], pos: usize) -> (r: VarintRead)
    ensures
        r == varint_at(s@, pos as int),
{
    let mut acc: u128 = 0;
    let mut mul: u128 = 1;
    let mut i: usize = 0;
    while i < 10
        invariant
            i <= 10,
            vscan(s@, pos as int, 0, 0, 1) == vscan(s@, pos as int, i as int, acc as int, mul as int),
            mul as int == pow128(i as nat),
            acc < mul,
        decreases 10 - i,
    {
        if pos as u128 + i as u128 >= s.len() as u128 {
            return VarintRead::Eof;
        }
        let b = s[pos + i];
        assert((b % 128) * mul + acc < mul * 128) by (nonlinear_arith)
            requires
                acc < mul,
                b % 128 < 128,
        ;
        assert(mul * 128 <= 0x8000_0000_0000_0000_0000) by {
            lemma_pow128_bound(i as nat);
        }
        let acc2: u128 = acc + (b as u128 % 128) * mul;
        if b < 128 {
            if acc2 > 0xffff_ffff_ffff_ffffu128 {
                return VarintRead::TooLong;
            }
            return VarintRead::Value(acc2 as u64, i + 1);
        }
        acc = acc2;
        mul = mul * 128;
        proof {
            assert(pow128((i + 1) as nat) == 128 * pow128(i as nat));
        }
        i = i + 1;
    }
    VarintRead::TooLong
}

proof fn lemma_pow128_bound(i: nat)
    requires
        i < 10,
    ensures
        pow128(i) * 128 <= 0x8000_0000_0000_0000_0000,
    decreases i,
{
    reveal_with_fuel(pow128, 11);
    assert(pow128(10) == 0x40_0000_0000_0000_0000int);
    lemma_pow128_mono(i + 1, 10);
}

proof fn lemma_pow128_mono(a: nat, b: nat)
    requires
        a <= b,
    ensures
        pow128(a) <= pow128(b),
    decreases b,
{
    if a < b {
        lemma_pow128_mono(a, (b - 1) as nat);
        assert(pow128(b) == 128 * pow128((b - 1) as nat));
        assert(pow128((b - 1) as nat) >= 1) by {
            lemma_pow128_pos((b - 1) as nat);
        }
    }
}

proof fn lemma_pow128_pos(a: nat)
    ensures
        pow128(a) >= 1,
    decreases a,
{
    if a > 0 {
        lemma_pow128_pos((a - 1) as nat);
    }
}

} // verus!
