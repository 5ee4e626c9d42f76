//! Hex-encoded key material.
use vstd::prelude::*;
use crate::error::{ArxError, FormatError};

verus! {

/// The characters with the Unicode `White_Space` property, which `char::is_whitespace` tests
/// and `str::trim` strips.
pub open spec fn is_ws(c: char) -> bool {
    let u = c as u32;
    (9 <= u <= 13) || u == 32 || u == 0x85 || u == 0xA0 || u == 0x1680 || (0x2000 <= u <= 0x200A)
        || u == 0x2028 || u == 0x2029 || u == 0x202F || u == 0x205F || u == 0x3000
}

/// The value of a hex digit.
pub open spec fn hex_val(c: char) -> Option<u8> {
    let u = c as u32;
    if 48 <= u <= 57 {
        Some((u - 48) as u8)
    } else if 97 <= u <= 102 {
        Some((u - 87) as u8)
    } else if 65 <= u <= 70 {
        Some((u - 55) as u8)
    } else {
        None
    }
}

/// The bytes that hex digits `s` denote, two digits per byte, high digit first.
pub open spec fn hex_bytes(s: Seq<char>) -> Seq<u8> {
    Seq::new(s.len() / 2, |i: int| (hex_val(s[2 * i])->0 * 16 + hex_val(s[2 * i + 1])->0) as u8)
}

/// `s` is an even number of hex digits.
pub open spec fn hex_ok(s: Seq<char>) -> bool {
    s.len() % 2 == 0 && forall|i: int| 0 <= i < s.len() ==> (#[trigger] hex_val(s[i])) is Some
}

/// `s[start..end]` is `s` without its leading and trailing whitespace, as `str::trim` gives it.
pub open spec fn trimmed(s: Seq<char>, start: int, end: int) -> bool {
    &&& 0 <= start <= end <= s.len()
    &&& forall|i: int| 0 <= i < start ==> is_ws(#[trigger] s[i])
    &&& forall|i: int| end <= i < s.len() ==> is_ws(#[trigger] s[i])
    &&& (start < end ==> !is_ws(s[start]) && !is_ws(s[end - 1]))
    &&& (start == end ==> start == s.len())
}

fn ws_char(c: char) -> (r: bool)
    ensures
        r == is_ws(c),
{
    let u = c as u32;
    (9 <= u && u <= 13) || u == 32 || u == 0x85 || u == 0xA0 || u == 0x1680 || (0x2000 <= u && u
        <= 0x200A) || u == 0x2028 || u == 0x2029 || u == 0x202F || u == 0x205F || u == 0x3000
}

fn hex_digit(c: char) -> (r: Option<u8>)
    ensures
        r == hex_val(c),
{
    let u = c as u32;
    if 48 <= u && u <= 57 {
        Some((u - 48) as u8)
    } else if 97 <= u && u <= 102 {
        Some((u - 87) as u8)
    } else if 65 <= u && u <= 70 {
        Some((u - 55) as u8)
    } else {
        None
    }
}

/// The characters of `s`, in order.
pub fn chars_of(s: &str) -> (r: Vec<char>)
    ensures
        r@ == s@,
{
    broadcast use vstd::string::axiom_spec_iter;

    let mut out: Vec<char> = Vec::new();
    for c in it: s.chars()
        invariant
            out@ == it.seq().subrange(0, it.index() as int),
            it.seq() == s@,
    {
        out.push(c);
    }
    out
}

/// Parses exactly `N` bytes of hex, ignoring surrounding whitespace as `str::trim` does.
pub fn parse_hex_array<const N: usize>(hex_str: &str) -> (r: Result<[u8; N], ArxError>)
    ensures
        r matches Ok(a) ==> exists|start: int, end: int|
            trimmed(hex_str@, start, end) && hex_ok(hex_str@.subrange(start, end)) && a@ == hex_bytes(
                #[trigger] hex_str@.subrange(start, end),
            ),
        r matches Err(e) ==> e == ArxError::Format(FormatError::BadHex),
        forall|start: int, end: int|
            trimmed(hex_str@, start, end) && hex_ok(#[trigger] hex_str@.subrange(start, end)) && end - start
                == 2 * N ==> r is Ok,
{
    let b = chars_of(hex_str);
    let mut start: usize = 0;
    while start < b.len() && ws_char(b[start])
        invariant
            start <= b@.len(),
            forall|i: int| 0 <= i < start ==> is_ws(#[trigger] b@[i]),
        decreases b@.len() - start,
    {
        start = start + 1;
    }
    let mut end: usize = b.len();
    while end > start && ws_char(b[end - 1])
        invariant
            start <= end <= b@.len(),
            forall|i: int| end <= i < b@.len() ==> is_ws(#[trigger] b@[i]),
        decreases end,
    {
        end = end - 1;
    }
    let ghost s = b@;
    assert(trimmed(s, start as int, end as int));
    proof {
        assert forall|st: int, en: int| trimmed(s, st, en) implies st == start && en == end by {
            lemma_trim_unique(s, st, en, start as int, end as int);
        }
    }
    if (end - start) % 2 != 0 || (end - start) / 2 != N {
        return Err(ArxError::Format(FormatError::BadHex));
    }
    let mut out: [u8; N] = [0u8; N];
    let mut i: usize = 0;
    while i < N
        invariant
            s == b@,
            s == hex_str@,
            forall|st: int, en: int| trimmed(s, st, en) ==> st == start && en == end,
            end - start == 2 * N,
            start <= end <= b@.len(),
            i <= N,
            out@.len() == N,
            forall|j: int| 0 <= j < 2 * i ==> (#[trigger] hex_val(b@[start + j])) is Some,
            forall|j: int|
                0 <= j < i ==> out@[j] == (hex_val(b@[start + 2 * j])->0 * 16 + hex_val(
                    b@[start + 2 * j + 1],
                )->0) as u8,
        decreases N - i,
    {
        let hi = hex_digit(b[start + 2 * i]);
        let lo = hex_digit(b[start + 2 * i + 1]);
        match (hi, lo) {
            (Some(h), Some(l)) => {
                out[i] = h * 16 + l;
            },
            _ => {
                proof {
                    let t = s.subrange(start as int, end as int);
                    assert(t[2 * i] == b@[start + 2 * i]);
                    assert(t[2 * i + 1] == b@[start + 2 * i + 1]);
                    if hi is None {
                        assert(hex_val(t[2 * i]) is None);
                    } else {
                        assert(hex_val(t[2 * i + 1]) is None);
                    }
                    assert(!hex_ok(t));
                    assert forall|st: int, en: int|
                        trimmed(hex_str@, st, en) && hex_ok(#[trigger] hex_str@.subrange(st, en)) && en - st
                            == 2 * N implies false by {
                        assert(st == start && en == end);
                    }
                }
                return Err(ArxError::Format(FormatError::BadHex));
            },
        }
        i = i + 1;
    }
    proof {
        let t = s.subrange(start as int, end as int);
        assert forall|j: int| 0 <= j < t.len() implies (#[trigger] hex_val(t[j])) is Some by {
            assert(t[j] == s[start + j]);
        }
        assert(out@ =~= hex_bytes(t));
    }
    Ok(out)
}

proof fn lemma_trim_unique(s: Seq<char>, a: int, b: int, c: int, d: int)
    requires
        trimmed(s, a, b),
        trimmed(s, c, d),
    ensures
        a == c && b == d,
{
    if a < c {
        assert(is_ws(s[a]));
    }
    if c < a {
        assert(is_ws(s[c]));
    }
    if a == c && b < d {
        assert(is_ws(s[d - 1]));
    }
    if a == c && d < b {
        assert(is_ws(s[b - 1]));
    }
}

} // verus!
