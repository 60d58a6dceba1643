//! The incremental scan: deciding which files need analysis, analysing them, and merging the
//! results into a new metadata cache with aggregate statistics.
use vstd::prelude::*;
use crate::context::meta_for;
use crate::deps::{alias_view, analyze_dependencies, collect_links, import_literals};
use crate::groups::{clamp_u64, clamp_usize, sum_sizes, sum_tokens};
use crate::models::{keys_sorted, lemma_sorted_same_entries_equal, strs, FileCache,
    FileMetadata, MetaView, ProjectStats, ScanOptions,
};
use crate::outside::{cl100k_token_count, count_tokens, string_from_chars};
use crate::render::{extension, extension_of};
use crate::text::{chars_of, text_eq};
use crate::tree::{name_chars, name_of};

verus! {

/// A file found by the walk: its relative path, size in bytes and modification time.
#[derive(Debug)]
pub struct DiscoveredFile {
    pub path: String,
    pub size: u64,
    pub mtime: u64,
}

pub open spec fn found_view(f: DiscoveredFile) -> (Seq<char>, u64, u64) {
    (f.path@, f.size, f.mtime)
}

/// What the scan does with one discovered file.
#[derive(Debug)]
pub enum ScanJob {
    /// Size and modification time match the previous record: keep it, read nothing.
    Reuse(FileMetadata),
    /// New or changed, and analysable: read it and recompute tokens and links.
    Analyze,
    /// New or changed, but on the non-analysable list: recorded with no tokens and no links.
    Record,
}

/// A job as plain values.
pub enum JobView {
    Reuse(MetaView),
    Analyze,
    Record,
}

pub open spec fn job_view(j: ScanJob) -> JobView {
    match j {
        ScanJob::Reuse(m) => JobView::Reuse(m@),
        ScanJob::Analyze => JobView::Analyze,
        ScanJob::Record => JobView::Record,
    }
}

/// The previous record of `f` when it is still valid: same path, size and modification time.
pub open spec fn still_valid(c: Seq<(Seq<char>, MetaView)>, f: (Seq<char>, u64, u64)) -> Option<MetaView> {
    match meta_for(c, f.0) {
        Some(m) => if m.size == f.1 && m.mtime == f.2 {
            Some(m)
        } else {
            None
        },
        None => None,
    }
}

/// File names never analysed: lock files.
pub open spec fn fixed_skips() -> Seq<Seq<char>> {
    seq!["Cargo.lock"@, "yarn.lock"@, "pnpm-lock.yaml"@]
}

/// Whether a file is recorded without analysis: a lock file, or an extension on the list.
pub open spec fn skips_analysis(p: Seq<char>, exts: Seq<Seq<char>>) -> bool {
    fixed_skips().contains(name_of(p)) || exts.contains(extension_of(p))
}

/// The extensions that the options keep from analysis.
pub open spec fn skip_extensions(o: ScanOptions) -> Seq<Seq<char>> {
    match o.user_non_analyzable_extensions {
        Some(v) => strs(v@),
        None => Seq::empty(),
    }
}

/// The job for one discovered file.
pub open spec fn job_for(c: Seq<(Seq<char>, MetaView)>, f: (Seq<char>, u64, u64), exts: Seq<Seq<char>>) -> JobView {
    match still_valid(c, f) {
        Some(m) => JobView::Reuse(m),
        None => if skips_analysis(f.0, exts) {
            JobView::Record
        } else {
            JobView::Analyze
        },
    }
}

fn skips_analysis_exec(p: &str, exts: &[String]) -> (r: bool)
    ensures
        r == skips_analysis(p@, strs(exts@)),
{
    let pc = chars_of(p);
    let name = string_from_chars(&name_chars(&pc));
    let n = name.as_str();
    if text_eq(n, "Cargo.lock") || text_eq(n, "yarn.lock") || text_eq(n, "pnpm-lock.yaml") {
        assert(fixed_skips().contains(name_of(p@))) by {
            if n@ == "Cargo.lock"@ {
                assert(fixed_skips()[0] == name_of(p@));
            } else if n@ == "yarn.lock"@ {
                assert(fixed_skips()[1] == name_of(p@));
            } else {
                assert(fixed_skips()[2] == name_of(p@));
            }
        }
        return true;
    }
    assert(!fixed_skips().contains(name_of(p@))) by {
        if fixed_skips().contains(name_of(p@)) {
            let k = choose|k: int| 0 <= k < 3 && fixed_skips()[k] == name_of(p@);
            assert(k == 0 || k == 1 || k == 2);
        }
    }
    let ext = extension(p);
    let mut i: usize = 0;
    while i < exts.len()
        invariant
            i <= exts@.len(),
            ext@ == extension_of(p@),
            forall|j: int| 0 <= j < i ==> strs(exts@)[j] != ext@,
        decreases exts.len() - i,
    {
        let e = chars_of(exts[i].as_str());
        if crate::text::chars_eq(&e, &ext) {
            assert(strs(exts@)[i as int] == ext@);
            return true;
        }
        i = i + 1;
    }
    false
}

fn still_valid_exec(c: &FileCache, f: &DiscoveredFile) -> (r: Option<FileMetadata>)
    ensures
        match still_valid(c@, found_view(*f)) {
            Some(m) => r is Some && r->0@ == m,
            None => r is None,
        },
{
    let ghost cv = c@;
    let mut i: usize = 0;
    assert(cv.skip(0) =~= cv);
    while i < c.len()
        invariant
            i <= cv.len(),
            cv == c@,
            meta_for(cv, f.path@) == meta_for(cv.skip(i as int), f.path@),
        decreases cv.len() - i,
    {
        assert(cv.skip(i as int)[0] == cv[i as int]);
        assert(cv.skip(i as int).drop_first() =~= cv.skip(i + 1));
        if text_eq(c.path_at(i).as_str(), f.path.as_str()) {
            let m = c.meta_at(i);
            if m.size == f.size && m.mtime == f.mtime {
                return Some(m.duplicate());
            } else {
                return None;
            }
        }
        i = i + 1;
    }
    None
}

/// Decides, for each discovered file, whether its previous record is reused, it is analysed,
/// or it is recorded without analysis.
pub fn plan_scan(files: &[DiscoveredFile], old_cache: &FileCache, options: &ScanOptions) -> (r: Vec<ScanJob>)
    ensures
        r@.len() == files@.len(),
        forall|i: int| 0 <= i < r@.len() ==> job_view(#[trigger] r@[i]) == job_for(
            old_cache@,
            found_view(files@[i]),
            skip_extensions(*options),
        ),
{
    let none: Vec<String> = Vec::new();
    let non_analyzable_extensions: &[String] = match &options.user_non_analyzable_extensions {
        Some(v) => v.as_slice(),
        None => none.as_slice(),
    };
    assert(strs(non_analyzable_extensions@) == skip_extensions(*options)) by {
        if options.user_non_analyzable_extensions is None {
            assert(strs(non_analyzable_extensions@) =~= Seq::<Seq<char>>::empty());
        }
    }
    let mut out: Vec<ScanJob> = Vec::new();
    let mut i: usize = 0;
    while i < files.len()
        invariant
            i <= files@.len(),
            out@.len() == i,
            forall|k: int| 0 <= k < i ==> job_view(#[trigger] out@[k]) == job_for(
                old_cache@,
                found_view(files@[k]),
                strs(non_analyzable_extensions@),
            ),
        decreases files.len() - i,
    {
        let f = &files[i];
        let job = match still_valid_exec(old_cache, f) {
            Some(m) => ScanJob::Reuse(m),
            None => if skips_analysis_exec(f.path.as_str(), non_analyzable_extensions) {
                ScanJob::Record
            } else {
                ScanJob::Analyze
            },
        };
        out.push(job);
        i = i + 1;
    }
    out
}

/// Token count and dependency links computed from a file's text; text that could not be
/// read as UTF-8 counts as no tokens and no links.
pub open spec fn analysis_of(
    content: Option<Seq<char>>,
    p: Seq<char>,
    files: Seq<Seq<char>>,
    t: Seq<(Seq<char>, Seq<char>)>,
) -> (usize, Seq<Seq<char>>) {
    match content {
        Some(s) => (
            match cl100k_token_count(s) {
                Some(n) => n,
                None => 0,
            },
            collect_links(import_literals(s), p, files, t),
        ),
        None => (0, Seq::empty()),
    }
}

/// Analyses one changed file: counts its tokens and resolves its dependency links.
pub fn analyze_file(
    content: Option<&str>,
    path: &str,
    all_project_files: &[String],
    aliases: &Vec<(String, String)>,
) -> (r: (usize, Vec<String>))
    ensures
        (r.0, strs(r.1@)) == analysis_of(
            match content {
                Some(s) => Some(s@),
                None => None,
            },
            path@,
            strs(all_project_files@),
            alias_view(aliases@),
        ),
{
    match content {
        Some(s) => {
            let tokens = match count_tokens(s) {
                Some(n) => n,
                None => 0,
            };
            (tokens, analyze_dependencies(s, path, all_project_files, aliases))
        },
        None => {
            let none: Vec<String> = Vec::new();
            assert(strs(none@) =~= Seq::<Seq<char>>::empty());
            (0, none)
        },
    }
}

/// The record a file gets from its job: the reused record; or the fresh analysis (size and
/// time of the walk, no exclusion ranges); or, unanalysed, no tokens and no links.
pub open spec fn record_for(f: (Seq<char>, u64, u64), j: JobView, a: (usize, Seq<Seq<char>>)) -> MetaView {
    match j {
        JobView::Reuse(m) => m,
        JobView::Analyze => MetaView { size: f.1, mtime: f.2, token_count: a.0, links: a.1, excluded_ranges: None },
        JobView::Record => MetaView {
            size: f.1,
            mtime: f.2,
            token_count: 0,
            links: Seq::empty(),
            excluded_ranges: None,
        },
    }
}

/// Turns a job and, for an analysed file, its analysis into the file's new record.
pub fn finish_file(f: &DiscoveredFile, job: ScanJob, analysis: (usize, Vec<String>)) -> (r: FileMetadata)
    ensures
        r@ == record_for(found_view(*f), job_view(job), (analysis.0, strs(analysis.1@))),
{
    match job {
        ScanJob::Reuse(m) => m,
        ScanJob::Analyze => FileMetadata {
            size: f.size,
            mtime: f.mtime,
            token_count: analysis.0,
            links: analysis.1,
            excluded_ranges: None,
        },
        ScanJob::Record => {
            let none: Vec<String> = Vec::new();
            assert(strs(none@) =~= Seq::<Seq<char>>::empty());
            FileMetadata { size: f.size, mtime: f.mtime, token_count: 0, links: none, excluded_ranges: None }
        },
    }
}

/// `c` is the cache merged from `rs`: sorted by path, and holding exactly the results
/// (results with distinct paths).
pub open spec fn merged_from(rs: Seq<(Seq<char>, MetaView)>, c: Seq<(Seq<char>, MetaView)>) -> bool {
    &&& keys_sorted(c)
    &&& forall|e: (Seq<char>, MetaView)| c.contains(e) <==> rs.contains(e)
}

/// Paths of some results are distinct.
pub open spec fn distinct_paths(rs: Seq<(Seq<char>, MetaView)>) -> bool {
    forall|i: int, j: int| 0 <= i < j < rs.len() ==> #[trigger] rs[i].0 != #[trigger] rs[j].0
}

pub open spec fn result_views(rs: Seq<(String, FileMetadata)>) -> Seq<(Seq<char>, MetaView)> {
    rs.map_values(|e: (String, FileMetadata)| (e.0@, e.1@))
}

/// Builds the new cache from the per-file results; the single writer of the new cache.
pub fn build_cache(results: Vec<(String, FileMetadata)>) -> (r: FileCache)
    ensures
        r.wf(),
        forall|k: Seq<char>| crate::models::has_key(r@, k) <==> exists|i: int|
            0 <= i < results@.len() && #[trigger] result_views(results@)[i].0 == k,
        distinct_paths(result_views(results@)) ==> merged_from(result_views(results@), r@),
{
    let ghost rv = result_views(results@);
    let mut cache = FileCache::new();
    let mut results = results;
    let ghost total = rv.len();
    assert(total == results.len());
    let mut i: usize = 0;
    assert(rv.skip(0) =~= rv);
    while results.len() > 0
        invariant
            i + results@.len() == total,
            total == rv.len(),
            total <= usize::MAX,
            result_views(results@) == rv.skip(i as int),
            cache.wf(),
            forall|k: Seq<char>| crate::models::has_key(cache@, k) <==> exists|j: int| 0 <= j < i && #[trigger] rv[j].0 == k,
            distinct_paths(rv) ==> (forall|e: (Seq<char>, MetaView)| cache@.contains(e) <==> rv.take(i as int).contains(e)),
        decreases results.len(),
    {
        let ghost before = result_views(results@);
        let ghost rb = results@;
        let ghost cb = cache@;
        let (p, m) = results.remove(0);
        assert(results@ =~= rb.subrange(1, rb.len() as int));
        assert(result_views(results@) =~= before.subrange(1, before.len() as int));
        let ghost e = (p@, m@);
        assert(before[0] == e);
        assert(rv[i as int] == e);
        assert(result_views(results@) =~= rv.skip(i + 1));
        cache.insert(p, m);
        proof {
            assert(rv.take(i + 1) =~= rv.take(i as int).push(e));
            assert forall|k: Seq<char>| crate::models::has_key(cache@, k) <==> exists|j: int| 0 <= j < i + 1 && #[trigger] rv[j].0 == k by {
                if crate::models::has_key(cache@, k) {
                    let a = choose|a: int| 0 <= a < cache@.len() && #[trigger] cache@[a].0 == k;
                    assert(cache@.contains(cache@[a]));
                    if k != e.0 {
                        assert(cb.contains(cache@[a]));
                        let b = choose|b: int| 0 <= b < cb.len() && cb[b] == cache@[a];
                        assert(crate::models::has_key(cb, k));
                    } else {
                        assert(rv[i as int].0 == k);
                    }
                }
                if exists|j: int| 0 <= j < i + 1 && #[trigger] rv[j].0 == k {
                    let j = choose|j: int| 0 <= j < i + 1 && #[trigger] rv[j].0 == k;
                    if k == e.0 {
                        assert(cache@.contains((e.0, e.1)));
                        let a = choose|a: int| 0 <= a < cache@.len() && cache@[a] == (e.0, e.1);
                        assert(cache@[a].0 == k);
                    } else {
                        assert(crate::models::has_key(cb, k));
                        let a = choose|a: int| 0 <= a < cb.len() && #[trigger] cb[a].0 == k;
                        assert(cb.contains(cb[a]));
                        assert(cache@.contains(cb[a]));
                        let b = choose|b: int| 0 <= b < cache@.len() && cache@[b] == cb[a];
                        assert(cache@[b].0 == k);
                    }
                }
            }
            if distinct_paths(rv) {
                assert forall|x: (Seq<char>, MetaView)| cache@.contains(x) <==> rv.take(i + 1).contains(x) by {
                    if x.0 == e.0 {
                        assert(rv.take(i + 1)[i as int] == e);
                        if x == e {
                            assert(rv.take(i + 1).contains(x));
                        }
                        if rv.take(i + 1).contains(x) {
                            let j = choose|j: int| 0 <= j < i + 1 && #[trigger] rv.take(i + 1)[j] == x;
                            if j < i {
                                assert(rv[j].0 == rv[i as int].0);
                            }
                            assert(x == e);
                        }
                    } else {
                        if rv.take(i as int).contains(x) {
                            let j = choose|j: int| 0 <= j < i && #[trigger] rv.take(i as int)[j] == x;
                            assert(rv.take(i + 1)[j] == x);
                        }
                        if rv.take(i + 1).contains(x) {
                            let j = choose|j: int| 0 <= j < i + 1 && #[trigger] rv.take(i + 1)[j] == x;
                            assert(rv.take(i as int)[j] == x);
                        }
                    }
                }
            }
        }
        i = i + 1;
    }
    assert(rv.take(i as int) =~= rv);
    cache
}

/// Aggregate statistics of a merged cache: its file count, the walked directory count, and
/// the sums (saturating) of sizes and tokens.
pub open spec fn stats_for(c: Seq<(Seq<char>, MetaView)>, total_dirs: u64) -> ProjectStats {
    ProjectStats {
        total_files: c.len() as u64,
        total_dirs,
        total_size: clamp_u64(sum_sizes(c)),
        total_tokens: clamp_usize(sum_tokens(c)),
    }
}

/// The statistics of a scan from its merged cache and the number of directories walked.
pub fn project_stats(cache: &FileCache, total_dirs: u64) -> (r: ProjectStats)
    ensures
        r == stats_for(cache@, total_dirs),
{
    let ghost c = cache@;
    let mut size: u64 = 0;
    let mut tokens: usize = 0;
    let mut i: usize = 0;
    while i < cache.len()
        invariant
            i <= c.len(),
            c == cache@,
            size == clamp_u64(sum_sizes(c.take(i as int))),
            tokens == clamp_usize(sum_tokens(c.take(i as int))),
        decreases c.len() - i,
    {
        assert(c.take(i + 1).drop_last() =~= c.take(i as int));
        let m = cache.meta_at(i);
        size = if size > u64::MAX - m.size { u64::MAX } else { size + m.size };
        tokens = if tokens > usize::MAX - m.token_count { usize::MAX } else { tokens + m.token_count };
        i = i + 1;
    }
    assert(c.take(i as int) =~= c);
    ProjectStats { total_files: cache.len() as u64, total_dirs, total_size: size, total_tokens: tokens }
}

proof fn lemma_meta_for_some(c: Seq<(Seq<char>, MetaView)>, p: Seq<char>)
    requires
        meta_for(c, p) is Some,
    ensures
        c.contains((p, meta_for(c, p)->0)),
    decreases c.len(),
{
    if c[0].0 != p {
        lemma_meta_for_some(c.drop_first(), p);
        let j = choose|j: int| 0 <= j < c.drop_first().len() && c.drop_first()[j] == (p, meta_for(c, p)->0);
        assert(c[j + 1] == (p, meta_for(c, p)->0));
    } else {
        assert(c[0] == (p, meta_for(c, p)->0));
    }
}

proof fn lemma_meta_for_entry(c: Seq<(Seq<char>, MetaView)>, j: int)
    requires
        keys_sorted(c),
        0 <= j < c.len(),
    ensures
        meta_for(c, c[j].0) == Some(c[j].1),
    decreases c.len(),
{
    if j > 0 {
        if c[0].0 == c[j].0 {
            crate::models::lemma_sorted_unique(c, 0, j);
        }
        let d = c.drop_first();
        assert(keys_sorted(d)) by {
            assert forall|a: int, b: int| 0 <= a < b < d.len() implies crate::text::lex_lt(#[trigger] d[a].0, #[trigger] d[b].0) by {
                assert(d[a] == c[a + 1]);
                assert(d[b] == c[b + 1]);
            }
        }
        assert(d[j - 1] == c[j]);
        lemma_meta_for_entry(d, j - 1);
    }
}

/// Merging the per-file results does not depend on the order they arrive in: results with
/// distinct paths, merged in any two orders, give the same cache and the same sums.
pub proof fn lemma_merge_order_independent(
    r1: Seq<(Seq<char>, MetaView)>,
    r2: Seq<(Seq<char>, MetaView)>,
    c1: Seq<(Seq<char>, MetaView)>,
    c2: Seq<(Seq<char>, MetaView)>,
)
    requires
        distinct_paths(r1),
        r2.to_multiset() == r1.to_multiset(),
        merged_from(r1, c1),
        merged_from(r2, c2),
    ensures
        c1 == c2,
        forall|d: u64| stats_for(c1, d) == stats_for(c2, d),
{
    broadcast use vstd::seq_lib::to_multiset_contains;
    assert forall|e: (Seq<char>, MetaView)| c1.contains(e) <==> c2.contains(e) by {
        vstd::seq_lib::to_multiset_contains(r1, e);
        vstd::seq_lib::to_multiset_contains(r2, e);
    }
    lemma_sorted_same_entries_equal(c1, c2);
}

/// The results of a scan whose jobs are all reuses.
pub open spec fn reused_results(
    c: Seq<(Seq<char>, MetaView)>,
    files: Seq<(Seq<char>, u64, u64)>,
    exts: Seq<Seq<char>>,
) -> Seq<(Seq<char>, MetaView)> {
    Seq::new(files.len(), |i: int| (files[i].0, record_for(files[i], job_for(c, files[i], exts), (0, Seq::empty()))))
}

/// Rescanning an unmodified tree: when the walk finds exactly the cached paths with their
/// recorded sizes and times, no file is read, and the merged cache is the old one.
pub proof fn lemma_rescan_unchanged(
    old: Seq<(Seq<char>, MetaView)>,
    files: Seq<(Seq<char>, u64, u64)>,
    exts: Seq<Seq<char>>,
    c: Seq<(Seq<char>, MetaView)>,
)
    requires
        keys_sorted(old),
        forall|i: int| 0 <= i < files.len() ==> still_valid(old, #[trigger] files[i]) is Some,
        forall|j: int| 0 <= j < old.len() ==> exists|i: int| 0 <= i < files.len() && #[trigger] files[i].0 == #[trigger] old[j].0,
        merged_from(reused_results(old, files, exts), c),
    ensures
        forall|i: int| 0 <= i < files.len() ==> job_for(old, #[trigger] files[i], exts) is Reuse,
        c == old,
{
    let rs = reused_results(old, files, exts);
    assert forall|e: (Seq<char>, MetaView)| c.contains(e) <==> old.contains(e) by {
        if rs.contains(e) {
            let i = choose|i: int| 0 <= i < rs.len() && rs[i] == e;
            assert(still_valid(old, files[i]) is Some);
            lemma_meta_for_some(old, files[i].0);
        }
        if old.contains(e) {
            let j = choose|j: int| 0 <= j < old.len() && old[j] == e;
            let i = choose|i: int| 0 <= i < files.len() && #[trigger] files[i].0 == old[j].0;
            lemma_meta_for_entry(old, j);
            assert(still_valid(old, files[i]) is Some);
            assert(rs[i] == e);
        }
    }
    lemma_sorted_same_entries_equal(c, old);
}

/// Changing one file's size or modification time invalidates exactly that file: it is
/// analysed (or recorded, when on the non-analysable list) and every other file is reused.
pub proof fn lemma_targeted_invalidation(
    old: Seq<(Seq<char>, MetaView)>,
    before: Seq<(Seq<char>, u64, u64)>,
    after: Seq<(Seq<char>, u64, u64)>,
    exts: Seq<Seq<char>>,
    k: int,
)
    requires
        forall|i: int| 0 <= i < before.len() ==> still_valid(old, #[trigger] before[i]) is Some,
        after.len() == before.len(),
        0 <= k < after.len(),
        forall|i: int| 0 <= i < after.len() && i != k ==> after[i] == before[i],
        after[k].0 == before[k].0,
        after[k].1 != before[k].1 || after[k].2 != before[k].2,
    ensures
        forall|i: int| 0 <= i < after.len() && i != k ==> job_for(old, #[trigger] after[i], exts) is Reuse,
        !(job_for(old, after[k], exts) is Reuse),
        !skips_analysis(after[k].0, exts) ==> job_for(old, after[k], exts) is Analyze,
{
    assert(still_valid(old, before[k]) is Some);
    assert forall|i: int| 0 <= i < after.len() && i != k implies job_for(old, #[trigger] after[i], exts) is Reuse by {
        assert(still_valid(old, before[i]) is Some);
    }
}

/// The results of a scan: each file with the record its job and analysis give it.
pub open spec fn scan_results(
    c: Seq<(Seq<char>, MetaView)>,
    files: Seq<(Seq<char>, u64, u64)>,
    exts: Seq<Seq<char>>,
    analyses: Seq<(usize, Seq<Seq<char>>)>,
) -> Seq<(Seq<char>, MetaView)> {
    Seq::new(files.len(), |i: int| (files[i].0, record_for(files[i], job_for(c, files[i], exts), analyses[i])))
}

/// Scanning an unmodified tree a second time (as `complete_scan` merges it): whatever the
/// first scan analysed, the second reads no file and yields exactly the cache of the first,
/// whatever analyses it is handed.
pub proof fn lemma_scan_twice_idempotent(
    old: Seq<(Seq<char>, MetaView)>,
    files: Seq<(Seq<char>, u64, u64)>,
    exts: Seq<Seq<char>>,
    analyses: Seq<(usize, Seq<Seq<char>>)>,
    first: Seq<(Seq<char>, MetaView)>,
    later: Seq<(usize, Seq<Seq<char>>)>,
    second: Seq<(Seq<char>, MetaView)>,
)
    requires
        analyses.len() == files.len(),
        later.len() == files.len(),
        merged_from(scan_results(old, files, exts, analyses), first),
        merged_from(scan_results(first, files, exts, later), second),
    ensures
        forall|i: int| 0 <= i < files.len() ==> job_for(first, #[trigger] files[i], exts) is Reuse,
        second == first,
{
    let rs = scan_results(old, files, exts, analyses);
    assert forall|i: int| 0 <= i < files.len() implies still_valid(first, #[trigger] files[i]) is Some by {
        assert(rs[i].1.size == files[i].1 && rs[i].1.mtime == files[i].2);
        assert(rs.contains(rs[i]));
        assert(first.contains(rs[i]));
        let j = choose|j: int| 0 <= j < first.len() && first[j] == rs[i];
        lemma_meta_for_entry(first, j);
    }
    assert forall|j: int| 0 <= j < first.len() implies exists|i: int| 0 <= i < files.len() && #[trigger] files[i].0 == #[trigger] first[j].0 by {
        assert(first.contains(first[j]));
        assert(rs.contains(first[j]));
        let i = choose|i: int| 0 <= i < rs.len() && rs[i] == first[j];
        assert(files[i].0 == first[j].0);
    }
    assert(scan_results(first, files, exts, later) =~= reused_results(first, files, exts));
    lemma_rescan_unchanged(first, files, exts, second);
}

/// Discovery order does not matter: two scans over the same files, found in different orders
/// and given the same analyses, yield the same cache and the same statistics.
pub proof fn lemma_discovery_order_independent(
    old: Seq<(Seq<char>, MetaView)>,
    exts: Seq<Seq<char>>,
    f1: Seq<(Seq<char>, u64, u64)>,
    a1: Seq<(usize, Seq<Seq<char>>)>,
    f2: Seq<(Seq<char>, u64, u64)>,
    a2: Seq<(usize, Seq<Seq<char>>)>,
    c1: Seq<(Seq<char>, MetaView)>,
    c2: Seq<(Seq<char>, MetaView)>,
)
    requires
        a1.len() == f1.len(),
        a2.len() == f2.len(),
        forall|i: int| 0 <= i < f2.len() ==> exists|j: int| 0 <= j < f1.len() && #[trigger] f1[j] == #[trigger] f2[i] && a1[j] == a2[i],
        forall|j: int| 0 <= j < f1.len() ==> exists|i: int| 0 <= i < f2.len() && #[trigger] f1[j] == #[trigger] f2[i] && a1[j] == a2[i],
        merged_from(scan_results(old, f1, exts, a1), c1),
        merged_from(scan_results(old, f2, exts, a2), c2),
    ensures
        c1 == c2,
        forall|d: u64| stats_for(c1, d) == stats_for(c2, d),
{
    let r1 = scan_results(old, f1, exts, a1);
    let r2 = scan_results(old, f2, exts, a2);
    assert forall|e: (Seq<char>, MetaView)| c1.contains(e) <==> c2.contains(e) by {
        if r1.contains(e) {
            let j = choose|j: int| 0 <= j < r1.len() && r1[j] == e;
            let i = choose|i: int| 0 <= i < f2.len() && #[trigger] f1[j] == #[trigger] f2[i] && a1[j] == a2[i];
            assert(r2[i] == e);
        }
        if r2.contains(e) {
            let i = choose|i: int| 0 <= i < r2.len() && r2[i] == e;
            let j = choose|j: int| 0 <= j < f1.len() && #[trigger] f1[j] == #[trigger] f2[i] && a1[j] == a2[i];
            assert(r1[j] == e);
        }
    }
    lemma_sorted_same_entries_equal(c1, c2);
}

pub open spec fn found_views(fs: Seq<DiscoveredFile>) -> Seq<(Seq<char>, u64, u64)> {
    fs.map_values(|f: DiscoveredFile| found_view(f))
}

pub open spec fn analysis_views(a: Seq<(usize, Vec<String>)>) -> Seq<(usize, Seq<Seq<char>>)> {
    a.map_values(|x: (usize, Vec<String>)| (x.0, strs(x.1@)))
}

/// Completes a scan: each discovered file gets the record its job gives it (with its entry of
/// `analyses` where it was analysed), and the records are merged into the new cache.
pub fn complete_scan(
    files: &[DiscoveredFile],
    old_cache: &FileCache,
    options: &ScanOptions,
    analyses: Vec<(usize, Vec<String>)>,
) -> (r: FileCache)
    requires
        analyses@.len() == files@.len(),
    ensures
        r.wf(),
        distinct_paths(scan_results(old_cache@, found_views(files@), skip_extensions(*options), analysis_views(analyses@)))
            ==> merged_from(
            scan_results(old_cache@, found_views(files@), skip_extensions(*options), analysis_views(analyses@)),
            r@,
        ),
{
    let ghost rs = scan_results(old_cache@, found_views(files@), skip_extensions(*options), analysis_views(analyses@));
    let ghost av = analysis_views(analyses@);
    let mut jobs = plan_scan(files, old_cache, options);
    let ghost jv = jobs@;
    let mut analyses = analyses;
    let mut results: Vec<(String, FileMetadata)> = Vec::new();
    let mut i: usize = 0;
    assert(jv.skip(0) =~= jv);
    assert(av.skip(0) =~= av);
    while i < files.len()
        invariant
            i <= files@.len(),
            jv.len() == files@.len(),
            av.len() == files@.len(),
            jobs@ == jv.skip(i as int),
            analyses@.len() + i == files@.len(),
            analysis_views(analyses@) == av.skip(i as int),
            forall|k: int| 0 <= k < jv.len() ==> job_view(#[trigger] jv[k]) == job_for(
                old_cache@,
                found_view(files@[k]),
                skip_extensions(*options),
            ),
            rs == scan_results(old_cache@, found_views(files@), skip_extensions(*options), av),
            result_views(results@) == rs.take(i as int),
        decreases files.len() - i,
    {
        let ghost j0 = jobs@;
        let ghost a0 = analyses@;
        let job = jobs.remove(0);
        let a = analyses.remove(0);
        assert(jobs@ =~= j0.subrange(1, j0.len() as int));
        assert(jobs@ =~= jv.skip(i + 1));
        assert(analyses@ =~= a0.subrange(1, a0.len() as int));
        assert(analysis_views(a0) == av.skip(i as int));
        assert(analysis_views(analyses@) =~= av.skip(i + 1)) by {
            assert forall|k: int| 0 <= k < analyses@.len() implies analysis_views(analyses@)[k] == av.skip(i + 1)[k] by {
                assert(analyses@[k] == a0[k + 1]);
                assert(analysis_views(a0)[k + 1] == av.skip(i as int)[k + 1]);
            }
        }
        assert(job == jv[i as int]);
        assert(a == a0[0]);
        assert(analysis_views(a0)[0] == av.skip(i as int)[0]);
        assert((a.0, strs(a.1@)) == av[i as int]);
        let f = &files[i];
        let m = finish_file(f, job, a);
        let ghost before = result_views(results@);
        results.push((f.path.clone(), m));
        assert(result_views(results@) =~= before.push(rs[i as int]));
        assert(rs.take(i + 1) =~= rs.take(i as int).push(rs[i as int]));
        i = i + 1;
    }
    assert(rs.take(i as int) =~= rs);
    build_cache(results)
}

} // verus!
