//! The data that a scan produces and that groups and exports read.
use vstd::prelude::*;
use crate::text::{chars_of, lex_lt, text_eq, text_lt, lemma_lex_irreflexive, lemma_lex_total, lemma_lex_transitive};

verus! {

/// The character sequences of a list of strings.
pub open spec fn strs(v: Seq<String>) -> Seq<Seq<char>> {
    v.map_values(|s: String| s@)
}

/// Copies a list of strings.
pub fn copy_strings(v: &[String]) -> (r: Vec<String>)
    ensures
        strs(r@) == strs(v@),
{
    let mut out: Vec<String> = Vec::new();
    let mut i: usize = 0;
    while i < v.len()
        invariant
            i <= v.len(),
            strs(out@) == strs(v@.take(i as int)),
        decreases v.len() - i,
    {
        out.push(v[i].clone());
        assert(strs(v@.take(i + 1)) =~= strs(v@.take(i as int)).push(v[i as int]@));
        assert(strs(out@) =~= strs(v@.take(i as int)).push(v[i as int]@));
        i = i + 1;
    }
    assert(v@.take(i as int) =~= v@);
    out
}

/// Whether `v` holds a string with the characters `x`.
pub fn holds_chars(v: &[String], x: &Vec<char>) -> (r: bool)
    ensures
        r == strs(v@).contains(x@),
{
    let mut i: usize = 0;
    while i < v.len()
        invariant
            i <= v@.len(),
            forall|j: int| 0 <= j < i ==> strs(v@)[j] != x@,
        decreases v.len() - i,
    {
        let c = chars_of(v[i].as_str());
        if crate::text::chars_eq(&c, x) {
            assert(strs(v@)[i as int] == x@);
            return true;
        }
        i = i + 1;
    }
    false
}

/// Whether `v` holds a string equal to `x`.
pub fn holds_text(v: &[String], x: &str) -> (r: bool)
    ensures
        r == strs(v@).contains(x@),
{
    holds_chars(v, &chars_of(x))
}

/// Statistics of one group: counts of its files and directories, and sums over its files.
#[derive(Clone, Copy, Debug, PartialEq, Eq, Structural, Default)]
pub struct GroupStats {
    pub total_files: u64,
    pub total_dirs: u64,
    pub total_size: u64,
    pub token_count: usize,
}

/// Statistics of a whole project scan.
#[derive(Clone, Copy, Debug, PartialEq, Eq, Structural, Default)]
pub struct ProjectStats {
    pub total_files: u64,
    pub total_dirs: u64,
    pub total_size: u64,
    pub total_tokens: usize,
}

/// Per-file analysis results, valid while `size` and `mtime` still match the file.
#[derive(Debug)]
pub struct FileMetadata {
    pub size: u64,
    pub mtime: u64,
    pub token_count: usize,
    pub links: Vec<String>,
    pub excluded_ranges: Option<Vec<(usize, usize)>>,
}

/// What a `FileMetadata` holds, with paths as character sequences.
pub struct MetaView {
    pub size: u64,
    pub mtime: u64,
    pub token_count: usize,
    pub links: Seq<Seq<char>>,
    pub excluded_ranges: Option<Seq<(usize, usize)>>,
}

impl View for FileMetadata {
    type V = MetaView;

    open spec fn view(&self) -> MetaView {
        MetaView {
            size: self.size,
            mtime: self.mtime,
            token_count: self.token_count,
            links: strs(self.links@),
            excluded_ranges: match self.excluded_ranges {
                Some(v) => Some(v@),
                None => None,
            },
        }
    }
}

/// Copies a list of ranges.
pub fn copy_ranges(v: &Vec<(usize, usize)>) -> (r: Vec<(usize, usize)>)
    ensures
        r@ == v@,
{
    let mut out: Vec<(usize, usize)> = Vec::new();
    let mut i: usize = 0;
    while i < v.len()
        invariant
            i <= v.len(),
            out@ == v@.take(i as int),
        decreases v.len() - i,
    {
        out.push(v[i]);
        assert(v@.take(i + 1) =~= v@.take(i as int).push(v[i as int]));
        i = i + 1;
    }
    assert(v@.take(i as int) =~= v@);
    out
}

impl FileMetadata {
    /// An independent copy of this record.
    pub fn duplicate(&self) -> (r: FileMetadata)
        ensures
            r@ == self@,
    {
        let ranges = match &self.excluded_ranges {
            Some(v) => Some(copy_ranges(v)),
            None => None,
        };
        FileMetadata {
            size: self.size,
            mtime: self.mtime,
            token_count: self.token_count,
            links: copy_strings(&self.links),
            excluded_ranges: ranges,
        }
    }
}

/// A node of the project tree: a file (no children) or a directory (ordered children).
#[derive(Debug)]
pub struct FileNode {
    pub name: String,
    pub path: String,
    pub children: Option<Vec<FileNode>>,
}

/// One entry of the metadata cache.
#[derive(Debug)]
pub struct CacheEntry {
    pub path: String,
    pub meta: FileMetadata,
}

/// Whether the keys of a sequence of entries are strictly increasing.
pub open spec fn keys_sorted(s: Seq<(Seq<char>, MetaView)>) -> bool {
    forall|i: int, j: int| 0 <= i < j < s.len() ==> lex_lt(#[trigger] s[i].0, #[trigger] s[j].0)
}

/// Whether some entry of `s` has key `k`.
pub open spec fn has_key(s: Seq<(Seq<char>, MetaView)>, k: Seq<char>) -> bool {
    exists|i: int| 0 <= i < s.len() && #[trigger] s[i].0 == k
}

/// The keys of a sequence of entries, in order.
pub open spec fn keys_of(s: Seq<(Seq<char>, MetaView)>) -> Seq<Seq<char>> {
    s.map_values(|e: (Seq<char>, MetaView)| e.0)
}

pub proof fn lemma_sorted_unique(s: Seq<(Seq<char>, MetaView)>, i: int, j: int)
    requires
        keys_sorted(s),
        0 <= i < s.len(),
        0 <= j < s.len(),
        s[i].0 == s[j].0,
    ensures
        i == j,
{
    if i < j {
        lemma_lex_irreflexive(s[i].0);
    } else if j < i {
        lemma_lex_irreflexive(s[i].0);
    }
}

/// Two strictly sorted entry sequences that hold the same entries are equal.
pub proof fn lemma_sorted_same_entries_equal(
    s1: Seq<(Seq<char>, MetaView)>,
    s2: Seq<(Seq<char>, MetaView)>,
)
    requires
        keys_sorted(s1),
        keys_sorted(s2),
        forall|e: (Seq<char>, MetaView)| s1.contains(e) <==> s2.contains(e),
    ensures
        s1 == s2,
    decreases s1.len(),
{
    if s1.len() == 0 {
        if s2.len() > 0 {
            assert(s2.contains(s2[0]));
        }
        assert(s1 =~= s2);
    } else {
        assert(s1.contains(s1[0]));
        let j = choose|j: int| 0 <= j < s2.len() && s2[j] == s1[0];
        assert(s2.contains(s2[0]));
        let k = choose|k: int| 0 <= k < s1.len() && s1[k] == s2[0];
        if j > 0 {
            assert(lex_lt(s2[0].0, s2[j].0));
            if k > 0 {
                assert(lex_lt(s1[0].0, s1[k].0));
                lemma_lex_transitive(s1[0].0, s1[k].0, s1[0].0);
                lemma_lex_irreflexive(s1[0].0);
            } else {
                lemma_lex_irreflexive(s1[0].0);
            }
        }
        let t1 = s1.drop_first();
        let t2 = s2.drop_first();
        assert forall|e: (Seq<char>, MetaView)| t1.contains(e) <==> t2.contains(e) by {
            if t1.contains(e) {
                let m = choose|m: int| 0 <= m < t1.len() && t1[m] == e;
                assert(s1[m + 1] == e);
                assert(s1.contains(e));
                let n = choose|n: int| 0 <= n < s2.len() && s2[n] == e;
                if n == 0 {
                    assert(lex_lt(s1[0].0, s1[m + 1].0));
                    lemma_lex_irreflexive(s1[0].0);
                }
                assert(t2[n - 1] == e);
            }
            if t2.contains(e) {
                let m = choose|m: int| 0 <= m < t2.len() && t2[m] == e;
                assert(s2[m + 1] == e);
                assert(s2.contains(e));
                let n = choose|n: int| 0 <= n < s1.len() && s1[n] == e;
                if n == 0 {
                    assert(lex_lt(s2[0].0, s2[m + 1].0));
                    lemma_lex_irreflexive(s2[0].0);
                }
                assert(t1[n - 1] == e);
            }
        }
        lemma_sorted_same_entries_equal(t1, t2);
        assert(s1 =~= seq![s1[0]] + t1);
        assert(s2 =~= seq![s2[0]] + t2);
    }
}

/// Scan settings from the caller.
#[derive(Debug)]
pub struct ScanOptions {
    pub user_non_analyzable_extensions: Option<Vec<String>>,
}

/// The metadata cache: entries keyed by relative path, kept in strictly increasing key order.
#[derive(Debug)]
pub struct FileCache {
    entries: Vec<CacheEntry>,
}

impl View for FileCache {
    type V = Seq<(Seq<char>, MetaView)>;

    closed spec fn view(&self) -> Seq<(Seq<char>, MetaView)> {
        self.entries@.map_values(|e: CacheEntry| (e.path@, e.meta@))
    }
}

impl FileCache {
    /// Well-formed: keys strictly increasing, hence distinct.
    pub open spec fn wf(&self) -> bool {
        keys_sorted(self@)
    }

    /// The empty cache.
    pub fn new() -> (r: FileCache)
        ensures
            r@ == Seq::<(Seq<char>, MetaView)>::empty(),
            r.wf(),
    {
        let r = FileCache { entries: Vec::new() };
        assert(r@ =~= Seq::<(Seq<char>, MetaView)>::empty());
        r
    }

    /// Number of entries.
    pub fn len(&self) -> (r: usize)
        ensures
            r == self@.len(),
    {
        self.entries.len()
    }

    /// Whether the cache has no entries.
    pub fn is_empty(&self) -> (r: bool)
        ensures
            r == (self@.len() == 0),
    {
        self.entries.len() == 0
    }

    /// The path of the `i`-th entry.
    pub fn path_at(&self, i: usize) -> (r: &String)
        requires
            i < self@.len(),
        ensures
            r@ == self@[i as int].0,
    {
        &self.entries[i].path
    }

    /// The metadata of the `i`-th entry.
    pub fn meta_at(&self, i: usize) -> (r: &FileMetadata)
        requires
            i < self@.len(),
        ensures
            r@ == self@[i as int].1,
    {
        &self.entries[i].meta
    }

    /// The index of the entry with key `path`, if any.
    pub fn find(&self, path: &str) -> (r: Option<usize>)
        requires
            self.wf(),
        ensures
            r is None <==> !has_key(self@, path@),
            r matches Some(i) ==> i < self@.len() && self@[i as int].0 == path@,
    {
        let mut i: usize = 0;
        while i < self.entries.len()
            invariant
                i <= self@.len(),
                self@.len() == self.entries@.len(),
                self@ == self.entries@.map_values(|e: CacheEntry| (e.path@, e.meta@)),
                forall|j: int| 0 <= j < i ==> self@[j].0 != path@,
            decreases self.entries.len() - i,
        {
            if text_eq(self.entries[i].path.as_str(), path) {
                assert(self@[i as int].0 == path@);
                return Some(i);
            }
            i = i + 1;
        }
        None
    }

    /// The metadata stored under `path`, if any.
    pub fn get(&self, path: &str) -> (r: Option<&FileMetadata>)
        requires
            self.wf(),
        ensures
            r is None <==> !has_key(self@, path@),
            r matches Some(m) ==> exists|i: int|
                0 <= i < self@.len() && self@[i].0 == path@ && self@[i].1 == m@,
    {
        match self.find(path) {
            Some(i) => Some(&self.entries[i].meta),
            None => None,
        }
    }

    /// Whether some entry has key `path`.
    pub fn contains_key(&self, path: &str) -> (r: bool)
        requires
            self.wf(),
        ensures
            r == has_key(self@, path@),
    {
        self.find(path).is_some()
    }

    /// The keys, in increasing order.
    pub fn keys(&self) -> (r: Vec<String>)
        ensures
            strs(r@) == keys_of(self@),
    {
        let mut out: Vec<String> = Vec::new();
        let mut i: usize = 0;
        while i < self.entries.len()
            invariant
                i <= self@.len(),
                self@.len() == self.entries@.len(),
                self@ == self.entries@.map_values(|e: CacheEntry| (e.path@, e.meta@)),
                strs(out@) == keys_of(self@).take(i as int),
            decreases self.entries.len() - i,
        {
            out.push(self.entries[i].path.clone());
            assert(keys_of(self@).take(i + 1) =~= keys_of(self@).take(i as int).push(
                self@[i as int].0,
            ));
            assert(strs(out@) =~= keys_of(self@).take(i as int).push(self@[i as int].0));
            i = i + 1;
        }
        assert(keys_of(self@).take(i as int) =~= keys_of(self@));
        out
    }

    /// Replaces the exclusion ranges of the file at `path` (no ranges clears them) and returns
    /// its updated record; `None`, with the cache unchanged, when no file has that path.
    pub fn set_excluded_ranges(&mut self, path: &str, ranges: Vec<(usize, usize)>) -> (r: Option<FileMetadata>)
        requires
            old(self).wf(),
        ensures
            final(self).wf(),
            r is None <==> !has_key(old(self)@, path@),
            r is None ==> final(self)@ == old(self)@,
            r matches Some(m) ==> exists|i: int|
                0 <= i < old(self)@.len() && old(self)@[i].0 == path@ && final(self)@ == old(self)@.update(
                    i,
                    (path@, m@),
                ) && m@ == (MetaView {
                    excluded_ranges: if ranges@.len() == 0 {
                        None
                    } else {
                        Some(ranges@)
                    },
                    ..old(self)@[i].1
                }),
    {
        match self.find(path) {
            None => None,
            Some(i) => {
                let ghost s = self@;
                let m = self.entries[i].meta.duplicate();
                let new_ranges = if ranges.len() == 0 {
                    None
                } else {
                    Some(ranges)
                };
                let updated = FileMetadata {
                    size: m.size,
                    mtime: m.mtime,
                    token_count: m.token_count,
                    links: m.links,
                    excluded_ranges: new_ranges,
                };
                let result = updated.duplicate();
                let p = self.entries[i].path.clone();
                self.entries.set(i, CacheEntry { path: p, meta: updated });
                proof {
                    assert(self@ =~= s.update(i as int, (path@, result@)));
                    assert forall|a: int, b: int| 0 <= a < b < self@.len() implies lex_lt(
                        #[trigger] self@[a].0,
                        #[trigger] self@[b].0,
                    ) by {
                        assert(self@[a].0 == s[a].0);
                        assert(self@[b].0 == s[b].0);
                    }
                }
                Some(result)
            },
        }
    }

    /// Stores `meta` under `path`, replacing what was stored there.
    pub fn insert(&mut self, path: String, meta: FileMetadata)
        requires
            old(self).wf(),
        ensures
            final(self).wf(),
            forall|e: (Seq<char>, MetaView)|
                e.0 != path@ ==> (final(self)@.contains(e) <==> old(self)@.contains(e)),
            forall|e: (Seq<char>, MetaView)|
                e.0 == path@ ==> (final(self)@.contains(e) <==> e.1 == meta@),
    {
        let ghost s = self@;
        let mut i: usize = 0;
        while i < self.entries.len() && text_lt(self.entries[i].path.as_str(), path.as_str())
            invariant
                i <= s.len(),
                s.len() == self.entries@.len(),
                s == self@,
                self@ == self.entries@.map_values(|e: CacheEntry| (e.path@, e.meta@)),
                forall|j: int| 0 <= j < i ==> lex_lt(#[trigger] s[j].0, path@),
            decreases self.entries.len() - i,
        {
            i = i + 1;
        }
        let ghost pv = path@;
        let ghost mv = meta@;
        if i < self.entries.len() && text_eq(self.entries[i].path.as_str(), path.as_str()) {
            self.entries.set(i, CacheEntry { path, meta });
            proof {
                assert(self@ =~= s.update(i as int, (pv, mv)));
                assert(s[i as int].0 == pv);
                assert forall|a: int, b: int| 0 <= a < b < self@.len() implies lex_lt(
                    #[trigger] self@[a].0,
                    #[trigger] self@[b].0,
                ) by {
                    assert(self@[a].0 == s[a].0);
                    assert(self@[b].0 == s[b].0);
                }
                assert forall|e: (Seq<char>, MetaView)|
                    e.0 != pv implies (self@.contains(e) <==> s.contains(e)) by {
                    if s.contains(e) {
                        let k = choose|k: int| 0 <= k < s.len() && s[k] == e;
                        assert(self@[k] == e);
                    }
                    if self@.contains(e) {
                        let k = choose|k: int| 0 <= k < s.len() && self@[k] == e;
                        assert(s[k] == e);
                    }
                }
                assert forall|e: (Seq<char>, MetaView)|
                    e.0 == pv implies (self@.contains(e) <==> e.1 == mv) by {
                    if e.1 == mv {
                        assert(self@[i as int] == e);
                    }
                    if self@.contains(e) {
                        let k = choose|k: int| 0 <= k < s.len() && self@[k] == e;
                        if k != i {
                            lemma_sorted_unique(s, k, i as int);
                        }
                    }
                }
            }
        } else {
            self.entries.insert(i, CacheEntry { path, meta });
            proof {
                let t = self@;
                assert(t =~= s.insert(i as int, (pv, mv)));
                if i < s.len() {
                    assert(s[i as int].0 != pv);
                    lemma_lex_total(s[i as int].0, pv);
                }
                assert forall|a: int, b: int| 0 <= a < b < t.len() implies lex_lt(
                    #[trigger] t[a].0,
                    #[trigger] t[b].0,
                ) by {
                    if b < i {
                    } else if b == i {
                    } else if a == i {
                        if b - 1 > i {
                            lemma_lex_transitive(pv, s[i as int].0, s[b - 1].0);
                        }
                    } else if a < i {
                        lemma_lex_transitive(s[a].0, pv, s[i as int].0);
                        if b - 1 > i {
                            lemma_lex_transitive(s[a].0, s[i as int].0, s[b - 1].0);
                        }
                    } else {
                    }
                }
                assert forall|e: (Seq<char>, MetaView)|
                    e.0 != pv implies (t.contains(e) <==> s.contains(e)) by {
                    if s.contains(e) {
                        let k = choose|k: int| 0 <= k < s.len() && s[k] == e;
                        if k < i {
                            assert(t[k] == e);
                        } else {
                            assert(t[k + 1] == e);
                        }
                    }
                    if t.contains(e) {
                        let k = choose|k: int| 0 <= k < t.len() && t[k] == e;
                        if k < i {
                            assert(s[k] == e);
                        } else {
                            assert(s[k - 1] == e);
                        }
                    }
                }
                assert forall|e: (Seq<char>, MetaView)|
                    e.0 == pv implies (t.contains(e) <==> e.1 == mv) by {
                    if e.1 == mv {
                        assert(t[i as int] == e);
                    }
                    if t.contains(e) {
                        let k = choose|k: int| 0 <= k < t.len() && t[k] == e;
                        if k != i {
                            lemma_sorted_unique(t, k, i as int);
                        }
                    }
                }
            }
        }
    }
}

} // verus!
