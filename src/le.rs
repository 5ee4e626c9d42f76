//! Little-endian fixed-width integers, as the container stores them.
use vstd::prelude::*;

verus! {

/// `256^n`.
pub open spec fn pow256(n: nat) -> nat
    decreases n,
{
    if n == 0 {
        1
    } else {
        256 * pow256((n - 1) as nat)
    }
}

/// The number that a little-endian byte string denotes.
pub open spec fn le_val(s: Seq<u8>) -> nat
    decreases s.len(),
{
    if s.len() == 0 {
        0
    } else {
        s[0] as nat + 256 * le_val(s.drop_first())
    }
}

/// The `n` low bytes of `x`, least significant first.
pub open spec fn le_enc(x: nat, n: nat) -> Seq<u8>
    decreases n,
{
    if n == 0 {
        Seq::empty()
    } else {
        seq![(x % 256) as u8] + le_enc(x / 256, (n - 1) as nat)
    }
}

pub proof fn lemma_pow256_8()
    ensures
        pow256(8) == 0x1_0000_0000_0000_0000nat,
        pow256(2) == 0x1_0000nat,
{
    reveal_with_fuel(pow256, 9);
}

pub proof fn lemma_pow256_mono(a: nat, b: nat)
    requires
        a <= b,
    ensures
        pow256(a) <= pow256(b),
    decreases b,
{
    if a < b {
        lemma_pow256_mono(a, (b - 1) as nat);
    }
}

pub proof fn lemma_le_enc_len(x: nat, n: nat)
    ensures
        le_enc(x, n).len() == n,
    decreases n,
{
    if n > 0 {
        lemma_le_enc_len(x / 256, (n - 1) as nat);
    }
}

/// A byte string of length `n` denotes a number below `256^n`.
pub proof fn lemma_le_val_bound(s: Seq<u8>)
    ensures
        le_val(s) < pow256(s.len()),
    decreases s.len(),
{
    if s.len() > 0 {
        lemma_le_val_bound(s.drop_first());
        let r = le_val(s.drop_first());
        let p = pow256((s.len() - 1) as nat);
        assert(s[0] as nat + 256 * r < 256 * p) by (nonlinear_arith)
            requires
                r < p,
                s[0] < 256,
        ;
    }
}

/// Decoding an encoding gives the number back.
pub proof fn lemma_le_round_trip(x: nat, n: nat)
    requires
        x < pow256(n),
    ensures
        le_val(le_enc(x, n)) == x,
    decreases n,
{
    if n > 0 {
        let p = pow256((n - 1) as nat);
        assert(x / 256 < p) by (nonlinear_arith)
            requires
                x < 256 * p,
        ;
        lemma_le_round_trip(x / 256, (n - 1) as nat);
        let e = le_enc(x, n);
        assert(e.drop_first() =~= le_enc(x / 256, (n - 1) as nat));
        assert(x == x % 256 + 256 * (x / 256));
    }
}

/// Appends the `n` low bytes of `x` to `out`, least significant first.
pub fn put_le(out: &mut Vec<u8>, x: u64, n: usize)
    requires
        n <= 8,
        x < pow256(n as nat),
    ensures
        final(out)@ == old(out)@ + le_enc(x as nat, n as nat),
{
    let ghost start = out@;
    let mut v: u64 = x;
    let mut i: usize = 0;
    while i < n
        invariant
            i <= n,
            out@ + le_enc(v as nat, (n - i) as nat) == start + le_enc(x as nat, n as nat),
        decreases n - i,
    {
        let ghost rest = le_enc(v as nat / 256, (n - i - 1) as nat);
        assert(le_enc(v as nat, (n - i) as nat) == seq![(v as nat % 256) as u8] + rest);
        let ghost prev = out@;
        out.push((v % 256) as u8);
        assert(out@ + rest =~= prev + le_enc(v as nat, (n - i) as nat));
        v = v / 256;
        i = i + 1;
    }
    assert(le_enc(v as nat, 0) =~= Seq::<u8>::empty());
    assert(out@ =~= start + le_enc(x as nat, n as nat));
}

/// Reads the `n`-byte little-endian number that starts at `off`.
pub fn get_le(s: &[u8], off: usize, n: usize) -> (r: u64)
    requires
        n <= 8,
        off + n <= s.len(),
    ensures
        r as nat == le_val(s@.subrange(off as int, off + n)),
{
    let mut acc: u64 = 0;
    let mut k: usize = n;
    proof {
        lemma_pow256_8();
    }
    while k > 0
        invariant
            k <= n,
            n <= 8,
            off + n <= s.len(),
            acc as nat == le_val(s@.subrange(off + k, off + n)),
            pow256(8) == 0x1_0000_0000_0000_0000nat,
        decreases k,
    {
        let ghost tail = s@.subrange(off + k, off + n);
        let ghost t = s@.subrange(off + k - 1, off + n);
        assert(t.drop_first() =~= tail);
        proof {
            lemma_le_val_bound(tail);
            lemma_pow256_mono((n - k + 1) as nat, 8);
        }
        let b = s[off + (k - 1)];
        let ghost p = pow256((n - k) as nat);
        assert(acc * 256 + b < 256 * p) by (nonlinear_arith)
            requires
                acc < p,
                b < 256,
        ;
        assert(pow256((n - k + 1) as nat) == 256 * p);
        acc = acc * 256 + b as u64;
        k = k - 1;
    }
    acc
}

} // verus!
