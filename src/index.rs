//! Journal records and the in-memory index that replaying them builds.
use vstd::prelude::*;
use vstd::string::StringSliceAdditionalSpecFns;
use crate::codec::CodecId;

verus! {

/// Where a chunk of an overlay entry lives.
#[derive(Debug, Clone, Copy, PartialEq, Eq, Structural)]
pub enum Loc {
    Base,
    Delta,
}

/// A chunk of an overlay entry.
#[derive(Debug, Clone, Copy)]
pub struct ChunkRef {
    pub loc: Loc,
    /// Absolute offset of the payload in its store.
    pub off: u64,
    /// Stored length of the payload.
    pub len: u64,
    pub codec: CodecId,
    /// BLAKE3 of the uncompressed content.
    pub blake3: [u8; 32],
}

/// Limits of an overlay. The compression ratio is in parts per million (1050000 is 1.05x).
#[derive(Debug, Clone, Copy)]
pub struct Policy {
    pub max_entries: Option<u64>,
    pub max_uncompressed: Option<u64>,
    pub max_delta_bytes: Option<u64>,
    pub min_compression_ratio_ppm: Option<u64>,
    pub allow_symlinks: bool,
}

/// One record of the journal.
#[derive(Debug, Clone)]
pub enum LogRecord {
    Put { path: String, mode: u32, mtime: u64, size: u64, chunks: Vec<ChunkRef> },
    Delete { path: String },
    Rename { from: String, to: String },
    SetPolicy(Policy),
    Note { text: String },
}

/// An overlay entry.
#[derive(Debug, Clone)]
pub struct Entry {
    pub mode: u32,
    pub mtime: u64,
    pub size: u64,
    pub chunks: Vec<ChunkRef>,
}

/// An entry as a value: its chunk list as a sequence.
pub struct EntryView {
    pub mode: u32,
    pub mtime: u64,
    pub size: u64,
    pub chunks: Seq<ChunkRef>,
}

impl Entry {
    pub open spec fn view(&self) -> EntryView {
        EntryView { mode: self.mode, mtime: self.mtime, size: self.size, chunks: self.chunks@ }
    }
}

/// The paths of an overlay after one record.
pub open spec fn apply_spec(m: Map<Seq<char>, EntryView>, rec: LogRecord) -> Map<Seq<char>, EntryView> {
    match rec {
        LogRecord::Put { path, mode, mtime, size, chunks } => m.insert(
            path@,
            EntryView { mode, mtime, size, chunks: chunks@ },
        ),
        LogRecord::Delete { path } => m.remove(path@),
        LogRecord::Rename { from, to } => if m.contains_key(from@) {
            m.remove(from@).insert(to@, m[from@])
        } else {
            m
        },
        LogRecord::SetPolicy(_) => m,
        LogRecord::Note { .. } => m,
    }
}

/// The paths of an overlay after a sequence of records, applied in order.
pub open spec fn fold_records(m: Map<Seq<char>, EntryView>, recs: Seq<LogRecord>) -> Map<Seq<char>, EntryView>
    decreases recs.len(),
{
    if recs.len() == 0 {
        m
    } else {
        apply_spec(fold_records(m, recs.drop_last()), recs.last())
    }
}

/// Replaying records in two parts, the second after the first, is replaying them all at once:
/// reopening an overlay and going on gives the same index as never closing it.
pub proof fn lemma_fold_append(m: Map<Seq<char>, EntryView>, a: Seq<LogRecord>, b: Seq<LogRecord>)
    ensures
        fold_records(m, a + b) == fold_records(fold_records(m, a), b),
    decreases b.len(),
{
    if b.len() == 0 {
        assert(a + b =~= a);
    } else {
        assert((a + b).drop_last() =~= a + b.drop_last());
        lemma_fold_append(m, a, b.drop_last());
    }
}

/// The map that a list of (path, entry) pairs denotes.
pub open spec fn to_map(s: Seq<(String, Entry)>) -> Map<Seq<char>, EntryView>
    decreases s.len(),
{
    if s.len() == 0 {
        Map::empty()
    } else {
        to_map(s.drop_last()).insert(s.last().0@, s.last().1.view())
    }
}

pub open spec fn keys_unique(s: Seq<(String, Entry)>) -> bool {
    forall|i: int, j: int| 0 <= i < j < s.len() ==> (#[trigger] s[i]).0@ != (#[trigger] s[j]).0@
}

proof fn lemma_to_map_contains(s: Seq<(String, Entry)>, k: Seq<char>)
    requires
        keys_unique(s),
    ensures
        to_map(s).contains_key(k) <==> exists|i: int| 0 <= i < s.len() && (#[trigger] s[i]).0@ == k,
        forall|i: int| 0 <= i < s.len() && (#[trigger] s[i]).0@ == k ==> to_map(s)[k] == s[i].1.view(),
    decreases s.len(),
{
    if s.len() > 0 {
        let t = s.drop_last();
        assert(keys_unique(t)) by {
            assert forall|i: int, j: int| 0 <= i < j < t.len() implies (#[trigger] t[i]).0@ != (#[trigger] t[j]).0@ by {
                assert(t[i] == s[i] && t[j] == s[j]);
            }
        }
        lemma_to_map_contains(t, k);
        if to_map(s).contains_key(k) && s.last().0@ != k {
            let i = choose|i: int| 0 <= i < t.len() && (#[trigger] t[i]).0@ == k;
            assert(s[i] == t[i]);
        }
        assert forall|i: int| 0 <= i < s.len() && (#[trigger] s[i]).0@ == k implies to_map(s)[k] == s[i].1.view() by {
            if i < s.len() - 1 {
                assert(s[i] == t[i]);
                assert(s[i].0@ != s[s.len() - 1].0@);
            }
        }
        if exists|i: int| 0 <= i < s.len() && (#[trigger] s[i]).0@ == k {
            let i = choose|i: int| 0 <= i < s.len() && (#[trigger] s[i]).0@ == k;
            if i < s.len() - 1 {
                assert(t[i] == s[i]);
            }
        }
    }
}

/// Maps with the same keys and values are equal.
proof fn lemma_to_map_ext(s: Seq<(String, Entry)>, m: Map<Seq<char>, EntryView>)
    requires
        keys_unique(s),
        forall|k: Seq<char>| m.contains_key(k) <==> exists|i: int| 0 <= i < s.len() && (#[trigger] s[i]).0@ == k,
        forall|i: int| 0 <= i < s.len() ==> m[(#[trigger] s[i]).0@] == s[i].1.view(),
    ensures
        to_map(s) == m,
{
    assert forall|k: Seq<char>| to_map(s).contains_key(k) <==> m.contains_key(k) by {
        lemma_to_map_contains(s, k);
    }
    assert forall|k: Seq<char>| to_map(s).contains_key(k) implies to_map(s)[k] == m[k] by {
        lemma_to_map_contains(s, k);
        let i = choose|i: int| 0 <= i < s.len() && (#[trigger] s[i]).0@ == k;
    }
    assert(to_map(s) =~= m);
}

/// Where a chunk is: its store, offset, stored length and codec.
pub open spec fn loc_of(c: ChunkRef) -> (Loc, u64, u64, CodecId) {
    (c.loc, c.off, c.len, c.codec)
}

/// `m` with the location of each of `cs` recorded under its hash, later ones winning.
pub open spec fn insert_chunks(m: Map<Seq<u8>, (Loc, u64, u64, CodecId)>, cs: Seq<ChunkRef>) -> Map<
    Seq<u8>,
    (Loc, u64, u64, CodecId),
>
    decreases cs.len(),
{
    if cs.len() == 0 {
        m
    } else {
        insert_chunks(m, cs.drop_last()).insert(cs.last().blake3@, loc_of(cs.last()))
    }
}

/// The hash-to-location map that a log of chunk references denotes.
pub open spec fn chunk_map(cs: Seq<ChunkRef>) -> Map<Seq<u8>, (Loc, u64, u64, CodecId)> {
    insert_chunks(Map::empty(), cs)
}

/// Recording `a` then `b` records `a + b`.
pub proof fn lemma_insert_chunks_append(m: Map<Seq<u8>, (Loc, u64, u64, CodecId)>, a: Seq<ChunkRef>, b: Seq<ChunkRef>)
    ensures
        insert_chunks(m, a + b) == insert_chunks(insert_chunks(m, a), b),
    decreases b.len(),
{
    if b.len() == 0 {
        assert(a + b =~= a);
    } else {
        assert((a + b).drop_last() =~= a + b.drop_last());
        lemma_insert_chunks_append(m, a, b.drop_last());
    }
}

/// The hash-to-location map after one record: a put records its chunks; nothing else changes it.
pub open spec fn apply_chunks(m: Map<Seq<u8>, (Loc, u64, u64, CodecId)>, rec: LogRecord) -> Map<
    Seq<u8>,
    (Loc, u64, u64, CodecId),
> {
    match rec {
        LogRecord::Put { chunks, .. } => insert_chunks(m, chunks@),
        _ => m,
    }
}

/// The policy after one record: a policy record replaces it; nothing else changes it.
pub open spec fn apply_policy(p: Option<Policy>, rec: LogRecord) -> Option<Policy> {
    match rec {
        LogRecord::SetPolicy(q) => Some(q),
        _ => p,
    }
}

/// The index an overlay keeps in memory: its paths, and the location of each chunk it has seen.
#[derive(Debug, Clone)]
pub struct InMemIndex {
    pub by_path: Vec<(String, Entry)>,
    /// Every chunk reference put, in journal order; `chunk_map` of it maps hash to location.
    pub by_chunk: Vec<ChunkRef>,
    pub policy: Option<Policy>,
    pub files: u64,
    pub logical_bytes: u64,
}

impl InMemIndex {
    /// The paths and their entries.
    pub open spec fn view(&self) -> Map<Seq<char>, EntryView> {
        to_map(self.by_path@)
    }

    /// No path occurs twice.
    pub open spec fn wf(&self) -> bool {
        keys_unique(self.by_path@)
    }

    /// An empty index.
    pub fn new() -> (r: InMemIndex)
        ensures
            r.wf(),
            r@ == Map::<Seq<char>, EntryView>::empty(),
    {
        InMemIndex { by_path: Vec::new(), by_chunk: Vec::new(), policy: None, files: 0, logical_bytes: 0 }
    }

    /// The position of `path`, if it has an entry.
    fn find(&self, path: &String) -> (r: Option<usize>)
        ensures
            r matches Some(i) ==> i < self.by_path@.len() && self.by_path@[i as int].0@ == path@,
            r is None ==> forall|i: int| 0 <= i < self.by_path@.len() ==> (#[trigger] self.by_path@[i]).0@ != path@,
    {
        let mut i: usize = 0;
        while i < self.by_path.len()
            invariant
                i <= self.by_path@.len(),
                forall|j: int| 0 <= j < i ==> (#[trigger] self.by_path@[j]).0@ != path@,
            decreases self.by_path@.len() - i,
        {
            if self.by_path[i].0 == *path {
                return Some(i);
            }
            i = i + 1;
        }
        None
    }

    /// The entry of `path`.
    pub fn get(&self, path: &String) -> (r: Option<&Entry>)
        requires
            self.wf(),
        ensures
            r matches Some(e) ==> self@.contains_key(path@) && self@[path@] == e.view(),
            r is None ==> !self@.contains_key(path@),
    {
        proof {
            lemma_to_map_contains(self.by_path@, path@);
        }
        match self.find(path) {
            Some(i) => Some(&self.by_path[i].1),
            None => None,
        }
    }

    /// The paths, in the order they were first put.
    pub fn paths(&self) -> (r: Vec<String>)
        requires
            self.wf(),
        ensures
            r@.len() == self.by_path@.len(),
            forall|i: int| 0 <= i < r@.len() ==> (#[trigger] r@[i])@ == self.by_path@[i].0@,
            forall|i: int| 0 <= i < r@.len() ==> self@.contains_key((#[trigger] r@[i])@),
    {
        let mut out: Vec<String> = Vec::new();
        let mut i: usize = 0;
        while i < self.by_path.len()
            invariant
                i <= self.by_path@.len(),
                self.wf(),
                out@.len() == i,
                forall|j: int| 0 <= j < i ==> (#[trigger] out@[j])@ == self.by_path@[j].0@,
            decreases self.by_path@.len() - i,
        {
            out.push(self.by_path[i].0.clone());
            i = i + 1;
        }
        proof {
            assert forall|j: int| 0 <= j < out@.len() implies self@.contains_key((#[trigger] out@[j])@) by {
                lemma_to_map_contains(self.by_path@, out@[j]@);
            }
        }
        out
    }

    /// The paths inside directory `dir`: those that `dir` followed by `/` starts.
    pub fn paths_under(&self, dir: &str) -> (r: Vec<String>)
        requires
            self.wf(),
        ensures
            r@.len() <= self.by_path@.len(),
            forall|i: int| 0 <= i < r@.len() ==> self@.contains_key((#[trigger] r@[i])@) && is_under(
                vstd::utf8::encode_utf8(r@[i]@),
                dir.spec_bytes(),
            ),
            forall|j: int|
                0 <= j < self.by_path@.len() && is_under(
                    vstd::utf8::encode_utf8((#[trigger] self.by_path@[j]).0@),
                    dir.spec_bytes(),
                ) ==> exists|i: int| 0 <= i < r@.len() && r@[i]@ == self.by_path@[j].0@,
    {
        let d = dir.as_bytes();
        let mut out: Vec<String> = Vec::new();
        let mut j: usize = 0;
        while j < self.by_path.len()
            invariant
                j <= self.by_path@.len(),
                self.wf(),
                d@ == dir.spec_bytes(),
                out@.len() <= j,
                forall|i: int| 0 <= i < out@.len() ==> self@.contains_key((#[trigger] out@[i])@) && is_under(
                    vstd::utf8::encode_utf8(out@[i]@),
                    dir.spec_bytes(),
                ),
                forall|k: int|
                    0 <= k < j && is_under(vstd::utf8::encode_utf8((#[trigger] self.by_path@[k]).0@), dir.spec_bytes())
                        ==> exists|i: int| 0 <= i < out@.len() && out@[i]@ == self.by_path@[k].0@,
            decreases self.by_path@.len() - j,
        {
            let p = &self.by_path[j].0;
            if starts_dir(p.as_str().as_bytes(), d) {
                let c = p.clone();
                proof {
                    lemma_to_map_contains(self.by_path@, p@);
                }
                let ghost before = out@;
                out.push(c);
                proof {
                    assert(out@[before.len() as int] == c);
                    assert forall|k: int|
                        0 <= k < j + 1 && is_under(vstd::utf8::encode_utf8((#[trigger] self.by_path@[k]).0@), dir.spec_bytes())
                            implies exists|i: int| 0 <= i < out@.len() && out@[i]@ == self.by_path@[k].0@ by {
                        if k < j {
                            let i = choose|i: int| 0 <= i < before.len() && before[i]@ == self.by_path@[k].0@;
                            assert(out@[i] == before[i]);
                        } else {
                            assert(out@[before.len() as int]@ == self.by_path@[k].0@);
                        }
                    }
                }
            }
            j = j + 1;
        }
        out
    }

    /// Sets the entry of `path`.
    fn put(&mut self, path: String, e: Entry)
        requires
            old(self).wf(),
        ensures
            final(self).wf(),
            final(self)@ == old(self)@.insert(path@, e.view()),
            final(self).by_chunk == old(self).by_chunk,
            final(self).policy == old(self).policy,
    {
        let ghost m = self@.insert(path@, e.view());
        let ghost k = path@;
        let ghost olds = self.by_path@;
        let ghost ev = e.view();
        let found = self.find(&path);
        let ghost at: int = match found {
            Some(i) => i as int,
            None => olds.len() as int,
        };
        match found {
            Some(i) => {
                self.by_path.set(i, (path, e));
            },
            None => {
                self.by_path.push((path, e));
            },
        }
        proof {
            let s = self.by_path@;
            assert(s[at].0@ == k && s[at].1.view() == ev);
            assert forall|j: int| 0 <= j < s.len() && j != at implies #[trigger] s[j] == olds[j] by {}
            assert forall|a: int, b: int| 0 <= a < b < s.len() implies (#[trigger] s[a]).0@ != (#[trigger] s[b]).0@ by {
                if a != at && b != at {
                    assert(s[a] == olds[a] && s[b] == olds[b]);
                } else if a == at {
                    assert(s[b] == olds[b]);
                } else {
                    assert(s[a] == olds[a]);
                }
            }
            assert forall|kk: Seq<char>| m.contains_key(kk) <==> exists|i: int| 0 <= i < s.len() && (#[trigger] s[i]).0@ == kk by {
                lemma_to_map_contains(olds, kk);
                if kk == k {
                    assert(s[at].0@ == kk);
                } else {
                    if m.contains_key(kk) {
                        let i = choose|i: int| 0 <= i < olds.len() && (#[trigger] olds[i]).0@ == kk;
                        assert(i != at);
                        assert(s[i] == olds[i]);
                    }
                    if exists|i: int| 0 <= i < s.len() && (#[trigger] s[i]).0@ == kk {
                        let i = choose|i: int| 0 <= i < s.len() && (#[trigger] s[i]).0@ == kk;
                        assert(i != at);
                        assert(s[i] == olds[i]);
                    }
                }
            }
            assert forall|i: int| 0 <= i < s.len() implies m[(#[trigger] s[i]).0@] == s[i].1.view() by {
                if i != at {
                    assert(s[i] == olds[i]);
                    lemma_to_map_contains(olds, s[i].0@);
                }
            }
            lemma_to_map_ext(s, m);
        }
    }

    /// Removes the entry of `path`, if any, and returns it.
    fn take(&mut self, path: &String) -> (r: Option<Entry>)
        requires
            old(self).wf(),
        ensures
            final(self).wf(),
            final(self)@ == old(self)@.remove(path@),
            final(self).by_chunk == old(self).by_chunk,
            final(self).policy == old(self).policy,
            r matches Some(e) ==> old(self)@.contains_key(path@) && old(self)@[path@] == e.view(),
            r is None ==> !old(self)@.contains_key(path@),
    {
        proof {
            lemma_to_map_contains(self.by_path@, path@);
        }
        let ghost m = self@.remove(path@);
        let ghost k = path@;
        match self.find(path) {
            Some(i) => {
                let ghost olds = self.by_path@;
                let (_, e) = self.by_path.remove(i);
                proof {
                    let s = self.by_path@;
                    assert(s =~= olds.remove(i as int));
                    assert forall|a: int, b: int| 0 <= a < b < s.len() implies (#[trigger] s[a]).0@ != (#[trigger] s[b]).0@ by {
                        let oa = if a < i { a } else { a + 1 };
                        let ob = if b < i { b } else { b + 1 };
                        assert(s[a] == olds[oa] && s[b] == olds[ob]);
                    }
                    assert forall|kk: Seq<char>| m.contains_key(kk) <==> exists|j: int| 0 <= j < s.len() && (#[trigger] s[j]).0@ == kk by {
                        lemma_to_map_contains(olds, kk);
                        if m.contains_key(kk) {
                            let j = choose|j: int| 0 <= j < olds.len() && (#[trigger] olds[j]).0@ == kk;
                            assert(j != i);
                            let sj = if j < i { j } else { j - 1 };
                            assert(s[sj] == olds[j]);
                        }
                        if exists|j: int| 0 <= j < s.len() && (#[trigger] s[j]).0@ == kk {
                            let j = choose|j: int| 0 <= j < s.len() && (#[trigger] s[j]).0@ == kk;
                            let oj = if j < i { j } else { j + 1 };
                            assert(s[j] == olds[oj]);
                            assert(oj != i);
                        }
                    }
                    assert forall|j: int| 0 <= j < s.len() implies m[(#[trigger] s[j]).0@] == s[j].1.view() by {
                        let oj = if j < i { j } else { j + 1 };
                        assert(s[j] == olds[oj]);
                        lemma_to_map_contains(olds, s[j].0@);
                    }
                    lemma_to_map_ext(s, m);
                }
                Some(e)
            },
            None => {
                assert(self@ =~= m);
                None
            },
        }
    }

    /// Applies one journal record.
    pub fn apply(&mut self, rec: &LogRecord)
        requires
            old(self).wf(),
        ensures
            final(self).wf(),
            final(self)@ == apply_spec(old(self)@, *rec),
            chunk_map(final(self).by_chunk@) == apply_chunks(chunk_map(old(self).by_chunk@), *rec),
            final(self).policy == apply_policy(old(self).policy, *rec),
    {
        match rec {
            LogRecord::Put { path, mode, mtime, size, chunks } => {
                let e = Entry { mode: *mode, mtime: *mtime, size: *size, chunks: copy_chunks(chunks) };
                self.put(path.clone(), e);
                let mut seen = copy_chunks(chunks);
                let ghost before = self.by_chunk@;
                self.by_chunk.append(&mut seen);
                proof {
                    lemma_insert_chunks_append(Map::empty(), before, chunks@);
                }
                self.files = self.files.saturating_add(1);
                self.logical_bytes = self.logical_bytes.saturating_add(*size);
            },
            LogRecord::Delete { path } => {
                let _ = self.take(path);
            },
            LogRecord::Rename { from, to } => {
                let ghost m0 = self@;
                match self.take(from) {
                    Some(e) => {
                        self.put(to.clone(), e);
                    },
                    None => {},
                }
            },
            LogRecord::SetPolicy(p) => {
                self.policy = Some(*p);
            },
            LogRecord::Note { .. } => {},
        }
    }

    /// Builds the index of an overlay by applying its records in journal order.
    pub fn replay(recs: &[LogRecord]) -> (r: InMemIndex)
        ensures
            r.wf(),
            r@ == fold_records(Map::empty(), recs@),
    {
        let mut idx = InMemIndex::new();
        let mut i: usize = 0;
        while i < recs.len()
            invariant
                i <= recs@.len(),
                idx.wf(),
                idx@ == fold_records(Map::empty(), recs@.subrange(0, i as int)),
            decreases recs@.len() - i,
        {
            idx.apply(&recs[i]);
            proof {
                let pre = recs@.subrange(0, i + 1);
                assert(pre.drop_last() =~= recs@.subrange(0, i as int));
            }
            i = i + 1;
        }
        assert(recs@.subrange(0, i as int) =~= recs@);
        idx
    }
}

/// A copy of a chunk list.
pub fn copy_chunks(v: &Vec<ChunkRef>) -> (r: Vec<ChunkRef>)
    ensures
        r@ == v@,
{
    let mut out: Vec<ChunkRef> = Vec::new();
    let mut i: usize = 0;
    while i < v.len()
        invariant
            i <= v@.len(),
            out@ == v@.subrange(0, i as int),
        decreases v@.len() - i,
    {
        out.push(v[i]);
        assert(out@ =~= v@.subrange(0, i + 1));
        i = i + 1;
    }
    assert(v@.subrange(0, v@.len() as int) =~= v@);
    out
}

/// Path bytes `p` lie inside directory `dir`: they start with `dir` and a `/`.
pub open spec fn is_under(p: Seq<u8>, dir: Seq<u8>) -> bool {
    p.len() > dir.len() && p.subrange(0, dir.len() as int) == dir && p[dir.len() as int] == 47u8
}

fn starts_dir(p: &[u8], dir: &[u8]) -> (r: bool)
    ensures
        r == is_under(p@, dir@),
{
    if p.len() <= dir.len() {
        return false;
    }
    let mut i: usize = 0;
    while i < dir.len()
        invariant
            i <= dir@.len(),
            dir@.len() < p@.len(),
            forall|k: int| 0 <= k < i ==> p@[k] == dir@[k],
        decreases dir@.len() - i,
    {
        if p[i] != dir[i] {
            assert(p@.subrange(0, dir@.len() as int)[i as int] != dir@[i as int]);
            return false;
        }
        i = i + 1;
    }
    assert(p@.subrange(0, dir@.len() as int) =~= dir@);
    p[dir.len()] == 47u8
}

} // verus!
