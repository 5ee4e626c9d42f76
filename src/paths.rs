//! Path safety for archive entries.
use vstd::prelude::*;
use vstd::string::StringSliceAdditionalSpecFns;
use crate::error::{ArxError, FormatError};
use crate::manifest::Manifest;

verus! {

pub open spec fn is_sep(b: u8) -> bool {
    b == 47u8 || b == 92u8
}

/// Whether `s` holds a `..` segment at `i`: two dots between separators or the ends.
pub open spec fn dotdot_at(s: Seq<u8>, i: int) -> bool {
    &&& 0 <= i
    &&& i + 2 <= s.len()
    &&& s[i] == 46u8
    &&& s[i + 1] == 46u8
    &&& (i == 0 || is_sep(s[i - 1]))
    &&& (i + 2 == s.len() || is_sep(s[i + 2]))
}

/// A path is safe to join under a destination: relative (no leading separator) and without
/// `..` segments.
pub open spec fn path_safe(s: Seq<u8>) -> bool {
    &&& !(s.len() > 0 && is_sep(s[0]))
    &&& forall|i: int| !#[trigger] dotdot_at(s, i)
}

/// Whether an archive path may be joined under the destination.
pub fn safe_path(rel: &str) -> (r: bool)
    ensures
        r == path_safe(rel.spec_bytes()),
{
    let b = rel.as_bytes();
    let n = b.len();
    if n > 0 && (b[0] == 47u8 || b[0] == 92u8) {
        return false;
    }
    let mut i: usize = 0;
    while i < n && n - i > 1
        invariant
            i <= n,
            n == b@.len(),
            b@ == rel.spec_bytes(),
            forall|j: int| 0 <= j < i ==> !#[trigger] dotdot_at(b@, j),
        decreases n - i,
    {
        if b[i] == 46u8 && b[i + 1] == 46u8 && (i == 0 || b[i - 1] == 47u8 || b[i - 1] == 92u8) && (i + 2
            == n || b[i + 2] == 47u8 || b[i + 2] == 92u8) {
            assert(dotdot_at(b@, i as int));
            return false;
        }
        i = i + 1;
    }
    true
}

/// Every directory and file path of a manifest is safe.
pub open spec fn manifest_paths_safe(m: Manifest) -> bool {
    &&& forall|i: int| 0 <= i < m.dirs@.len() ==> path_safe(vstd::utf8::encode_utf8((#[trigger] m.dirs@[i]).path@))
    &&& forall|i: int| 0 <= i < m.files@.len() ==> path_safe(vstd::utf8::encode_utf8((#[trigger] m.files@[i]).path@))
}

/// Checks every path of a manifest before anything is extracted.
pub fn check_paths(m: &Manifest) -> (r: Result<(), ArxError>)
    ensures
        r is Ok <==> manifest_paths_safe(*m),
        r matches Err(e) ==> e == ArxError::Format(FormatError::UnsafePath),
{
    let mut i: usize = 0;
    while i < m.dirs.len()
        invariant
            i <= m.dirs@.len(),
            forall|j: int| 0 <= j < i ==> path_safe(vstd::utf8::encode_utf8((#[trigger] m.dirs@[j]).path@)),
        decreases m.dirs@.len() - i,
    {
        if !safe_path(m.dirs[i].path.as_str()) {
            return Err(ArxError::Format(FormatError::UnsafePath));
        }
        i = i + 1;
    }
    let mut k: usize = 0;
    while k < m.files.len()
        invariant
            k <= m.files@.len(),
            forall|j: int| 0 <= j < m.dirs@.len() ==> path_safe(vstd::utf8::encode_utf8((#[trigger] m.dirs@[j]).path@)),
            forall|j: int| 0 <= j < k ==> path_safe(vstd::utf8::encode_utf8((#[trigger] m.files@[j]).path@)),
        decreases m.files@.len() - k,
    {
        if !safe_path(m.files[k].path.as_str()) {
            return Err(ArxError::Format(FormatError::UnsafePath));
        }
        k = k + 1;
    }
    Ok(())
}

} // verus!
