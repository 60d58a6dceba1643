//! Group expansion, group statistics and cross-sync closure over the metadata cache.
use vstd::prelude::*;
use crate::models::{keys_of, strs, FileCache,
    GroupStats, MetaView,
};
use crate::text::{chars_eq, chars_of, chars_start_with, has_prefix};

verus! {

/// The character sequences of a list of character vectors.
pub open spec fn views(v: Seq<Vec<char>>) -> Seq<Seq<char>> {
    v.map_values(|c: Vec<char>| c@)
}

/// Whether the stored group path `p` covers the cache key `k`: the empty path covers the whole
/// project, a path covers itself, and a directory path covers everything below it.
pub open spec fn covers(p: Seq<char>, k: Seq<char>) -> bool {
    p.len() == 0 || k == p || has_prefix(k, p.push('/'))
}

/// Whether some path of `paths` covers `k`.
pub open spec fn covered(paths: Seq<Seq<char>>, k: Seq<char>) -> bool {
    exists|i: int| 0 <= i < paths.len() && covers(#[trigger] paths[i], k)
}

/// The cache entries that a group with `paths` holds, in cache order.
pub open spec fn selected(paths: Seq<Seq<char>>, c: Seq<(Seq<char>, MetaView)>) -> Seq<
    (Seq<char>, MetaView),
> {
    c.filter(|e: (Seq<char>, MetaView)| covered(paths, e.0))
}

/// The files that a group with `paths` holds, in cache order.
pub open spec fn expansion(paths: Seq<Seq<char>>, c: Seq<(Seq<char>, MetaView)>) -> Seq<Seq<char>> {
    keys_of(selected(paths, c))
}

/// Sum of the sizes of some entries.
pub open spec fn sum_sizes(s: Seq<(Seq<char>, MetaView)>) -> nat
    decreases s.len(),
{
    if s.len() == 0 {
        0
    } else {
        (sum_sizes(s.drop_last()) + s.last().1.size) as nat
    }
}

/// Sum of the token counts of some entries.
pub open spec fn sum_tokens(s: Seq<(Seq<char>, MetaView)>) -> nat
    decreases s.len(),
{
    if s.len() == 0 {
        0
    } else {
        (sum_tokens(s.drop_last()) + s.last().1.token_count) as nat
    }
}

/// `x`, or `u64::MAX` where `x` does not fit.
pub open spec fn clamp_u64(x: nat) -> u64 {
    if x > u64::MAX {
        u64::MAX
    } else {
        x as u64
    }
}

/// `x`, or `usize::MAX` where `x` does not fit.
pub open spec fn clamp_usize(x: nat) -> usize {
    if x > usize::MAX {
        usize::MAX
    } else {
        x as usize
    }
}

/// The directories above a relative file path: each prefix that ends just before a `/`.
pub open spec fn ancestors(f: Seq<char>) -> Set<Seq<char>> {
    Set::new(|d: Seq<char>| exists|i: int| 0 < i < f.len() && f[i] == '/' && d == f.take(i))
}

/// The directories above any of `files`.
pub open spec fn dirs_of(files: Seq<Seq<char>>) -> Set<Seq<char>> {
    Set::new(|d: Seq<char>| exists|j: int| 0 <= j < files.len() && ancestors(files[j]).contains(d))
}

/// The statistics of the group with `paths` over cache `c`.
pub open spec fn stats_of(paths: Seq<Seq<char>>, c: Seq<(Seq<char>, MetaView)>) -> GroupStats {
    GroupStats {
        total_files: selected(paths, c).len() as u64,
        total_dirs: dirs_of(expansion(paths, c)).len() as u64,
        total_size: clamp_u64(sum_sizes(selected(paths, c))),
        token_count: clamp_usize(sum_tokens(selected(paths, c))),
    }
}

fn covers_exec(p: &Vec<char>, k: &Vec<char>) -> (r: bool)
    ensures
        r == covers(p@, k@),
{
    if p.len() == 0 {
        return true;
    }
    if chars_eq(p, k) {
        return true;
    }
    let mut ps = p.clone();
    assert(ps@ =~= p@);
    ps.push('/');
    chars_start_with(k, &ps)
}

pub(crate) fn covered_exec(paths: &Vec<Vec<char>>, k: &Vec<char>) -> (r: bool)
    ensures
        r == covered(views(paths@), k@),
{
    let mut i: usize = 0;
    while i < paths.len()
        invariant
            i <= paths.len(),
            forall|j: int| 0 <= j < i ==> !covers(#[trigger] views(paths@)[j], k@),
        decreases paths.len() - i,
    {
        if covers_exec(&paths[i], k) {
            assert(covers(views(paths@)[i as int], k@));
            return true;
        }
        i = i + 1;
    }
    false
}

/// The characters of each string.
pub fn chars_of_all(v: &[String]) -> (r: Vec<Vec<char>>)
    ensures
        views(r@) == strs(v@),
{
    let mut out: Vec<Vec<char>> = Vec::new();
    let mut i: usize = 0;
    while i < v.len()
        invariant
            i <= v.len(),
            views(out@) == strs(v@.take(i as int)),
        decreases v.len() - i,
    {
        out.push(chars_of(v[i].as_str()));
        assert(strs(v@.take(i + 1)) =~= strs(v@.take(i as int)).push(v@[i as int]@));
        assert(views(out@) =~= strs(v@.take(i as int)).push(v@[i as int]@));
        i = i + 1;
    }
    assert(v@.take(i as int) =~= v@);
    out
}

/// The concrete files of a group: every cache key equal to one of `group_paths` or below one of
/// them as a directory; the empty path stands for the whole project. Each file comes once, in
/// cache order.
pub fn expand_group_paths_to_files(group_paths: &[String], cache: &FileCache) -> (r: Vec<String>)
    ensures
        strs(r@) == expansion(strs(group_paths@), cache@),
{
    let ps = chars_of_all(group_paths);
    let ghost paths = strs(group_paths@);
    let ghost pred = |e: (Seq<char>, MetaView)| covered(paths, e.0);
    let mut out: Vec<String> = Vec::new();
    let mut i: usize = 0;
    while i < cache.len()
        invariant
            i <= cache@.len(),
            views(ps@) == paths,
            pred == (|e: (Seq<char>, MetaView)| covered(paths, e.0)),
            strs(out@) == keys_of(cache@.take(i as int).filter(pred)),
        decreases cache@.len() - i,
    {
        let k = cache.path_at(i);
        let kc = chars_of(k.as_str());
        let hit = covered_exec(&ps, &kc);
        proof {
            assert(cache@.take(i + 1) =~= cache@.take(i as int).push(cache@[i as int]));
            cache@.take(i as int).lemma_filter_push(cache@[i as int], pred);
        }
        if hit {
            let ghost before = out@;
            let kk = k.clone();
            out.push(kk);
            proof {
                let sel = cache@.take(i as int).filter(pred);
                assert(strs(out@) =~= strs(before).push(k@));
                assert(keys_of(sel.push(cache@[i as int])) =~= keys_of(sel).push(k@));
            }
        } else {
            assert(strs(out@) =~= keys_of(cache@.take(i + 1).filter(pred)));
        }
        i = i + 1;
    }
    assert(cache@.take(i as int) =~= cache@);
    out
}

fn sat_add_u64(a: u64, b: u64) -> (r: u64)
    ensures
        r == if a + b > u64::MAX { u64::MAX } else { (a + b) as u64 },
{
    if a > u64::MAX - b {
        u64::MAX
    } else {
        a + b
    }
}

fn sat_add_usize(a: usize, b: usize) -> (r: usize)
    ensures
        r == if a + b > usize::MAX { usize::MAX } else { (a + b) as usize },
{
    if a > usize::MAX - b {
        usize::MAX
    } else {
        a + b
    }
}

/// Adds `d` to `dirs` unless it is there already.
fn push_unique(dirs: &mut Vec<Vec<char>>, d: Vec<char>)
    requires
        views(old(dirs)@).no_duplicates(),
    ensures
        views(final(dirs)@).no_duplicates(),
        views(final(dirs)@).to_set() == views(old(dirs)@).to_set().insert(d@),
{
    let ghost s = views(dirs@);
    let mut i: usize = 0;
    while i < dirs.len()
        invariant
            i <= dirs.len(),
            views(dirs@) == s,
            s.no_duplicates(),
            forall|j: int| 0 <= j < i ==> s[j] != d@,
        decreases dirs.len() - i,
    {
        if chars_eq(&dirs[i], &d) {
            proof {
                assert(s.to_set().insert(d@) =~= s.to_set()) by {
                    assert(s.contains(s[i as int]));
                }
            }
            return;
        }
        i = i + 1;
    }
    dirs.push(d);
    proof {
        let t = views(dirs@);
        assert(t =~= s.push(d@));
        s.lemma_push_to_set_commute(d@);
        assert forall|a: int, b: int| 0 <= a < t.len() && 0 <= b < t.len() && a != b implies t[a]
            != t[b] by {
            if a < s.len() && b < s.len() {
                assert(s[a] != s[b]);
            }
        }
    }
}

/// The ancestors of `f` whose end lies before index `i`.
pub open spec fn ancestors_below(f: Seq<char>, i: int) -> Set<Seq<char>> {
    Set::new(|d: Seq<char>| exists|j: int| 0 < j < i && j < f.len() && f[j] == '/' && d == f.take(j))
}

/// Adds the directories above `f` to `dirs`.
fn add_ancestors(f: &Vec<char>, dirs: &mut Vec<Vec<char>>)
    requires
        views(old(dirs)@).no_duplicates(),
    ensures
        views(final(dirs)@).no_duplicates(),
        views(final(dirs)@).to_set() == views(old(dirs)@).to_set().union(ancestors(f@)),
{
    let ghost s0 = views(dirs@).to_set();
    let mut cur: Vec<char> = Vec::new();
    let mut i: usize = 0;
    while i < f.len()
        invariant
            i <= f.len(),
            cur@ == f@.take(i as int),
            views(dirs@).no_duplicates(),
            views(dirs@).to_set() == s0.union(ancestors_below(f@, i as int)),
        decreases f.len() - i,
    {
        let ghost before = views(dirs@).to_set();
        if i > 0 && f[i] == '/' {
            let d = cur.clone();
            assert(d@ =~= cur@);
            push_unique(dirs, d);
            assert(s0.union(ancestors_below(f@, i + 1)) =~= before.insert(f@.take(i as int)));
        } else {
            assert(s0.union(ancestors_below(f@, i + 1)) =~= before);
        }
        cur.push(f[i]);
        assert(cur@ =~= f@.take(i + 1));
        i = i + 1;
    }
    assert(ancestors_below(f@, i as int) =~= ancestors(f@));
}

/// The statistics of a group with `paths`: the number of its files, the number of distinct
/// directories above them, and the sums of their sizes and token counts (saturating).
pub fn recalculate_stats_for_paths(paths: &[String], cache: &FileCache) -> (r: GroupStats)
    ensures
        r == stats_of(strs(paths@), cache@),
        dirs_of(expansion(strs(paths@), cache@)).finite(),
{
    let ps = chars_of_all(paths);
    let ghost gp = strs(paths@);
    let ghost pred = |e: (Seq<char>, MetaView)| covered(gp, e.0);
    let mut files: u64 = 0;
    let mut size: u64 = 0;
    let mut tokens: usize = 0;
    let mut dirs: Vec<Vec<char>> = Vec::new();
    let mut i: usize = 0;
    assert(views(dirs@).to_set() =~= dirs_of(keys_of(cache@.take(0).filter(pred))));
    while i < cache.len()
        invariant
            i <= cache@.len(),
            views(ps@) == gp,
            pred == (|e: (Seq<char>, MetaView)| covered(gp, e.0)),
            files as int == cache@.take(i as int).filter(pred).len(),
            size == clamp_u64(sum_sizes(cache@.take(i as int).filter(pred))),
            tokens == clamp_usize(sum_tokens(cache@.take(i as int).filter(pred))),
            views(dirs@).no_duplicates(),
            views(dirs@).to_set() == dirs_of(keys_of(cache@.take(i as int).filter(pred))),
        decreases cache@.len() - i,
    {
        let k = cache.path_at(i);
        let kc = chars_of(k.as_str());
        let hit = covered_exec(&ps, &kc);
        let ghost sel = cache@.take(i as int).filter(pred);
        proof {
            assert(cache@.take(i + 1) =~= cache@.take(i as int).push(cache@[i as int]));
            cache@.take(i as int).lemma_filter_push(cache@[i as int], pred);
            cache@.take(i as int).lemma_filter_len(pred);
        }
        if hit {
            let m = cache.meta_at(i);
            files = files + 1;
            size = sat_add_u64(size, m.size);
            tokens = sat_add_usize(tokens, m.token_count);
            add_ancestors(&kc, &mut dirs);
            proof {
                let e = cache@[i as int];
                assert(sel.push(e).drop_last() =~= sel);
                assert(keys_of(sel.push(e)) =~= keys_of(sel).push(e.0));
                assert(dirs_of(keys_of(sel.push(e))) =~= dirs_of(keys_of(sel)).union(
                    ancestors(e.0),
                )) by {
                    let ks = keys_of(sel);
                    assert forall|d: Seq<char>| #[trigger]
                        dirs_of(ks.push(e.0)).contains(d) implies dirs_of(ks).union(
                        ancestors(e.0),
                    ).contains(d) by {
                        let j = choose|j: int|
                            0 <= j < ks.push(e.0).len() && ancestors(ks.push(e.0)[j]).contains(d);
                        if j < ks.len() {
                            assert(ks[j] == ks.push(e.0)[j]);
                        }
                    }
                    assert forall|d: Seq<char>| #[trigger]
                        dirs_of(ks).union(ancestors(e.0)).contains(d) implies dirs_of(
                        ks.push(e.0),
                    ).contains(d) by {
                        if dirs_of(ks).contains(d) {
                            let j = choose|j: int| 0 <= j < ks.len() && ancestors(ks[j]).contains(d);
                            assert(ks.push(e.0)[j] == ks[j]);
                        } else {
                            assert(ks.push(e.0)[ks.len() as int] == e.0);
                        }
                    }
                }
            }
        }
        i = i + 1;
    }
    assert(cache@.take(i as int) =~= cache@);
    proof {
        views(dirs@).unique_seq_to_set();
    }
    GroupStats { total_files: files, total_dirs: dirs.len() as u64, total_size: size, token_count: tokens }
}

} // verus!
