//! Cross-sync: the closure of a file set under the dependency links recorded in the cache.
use vstd::prelude::*;
use crate::groups::{
    chars_of_all, covered, covered_exec, expand_group_paths_to_files, expansion,
    recalculate_stats_for_paths, stats_of, views,
};
use crate::models::{copy_strings, has_key, holds_text, lemma_sorted_unique, strs, FileCache, GroupStats, MetaView};
use crate::text::chars_of;

verus! {

/// The cache records that file `x` links to `y`.
pub open spec fn edge(c: Seq<(Seq<char>, MetaView)>, x: Seq<char>, y: Seq<char>) -> bool {
    exists|i: int| 0 <= i < c.len() && c[i].0 == x && #[trigger] c[i].1.links.contains(y)
}

/// Every link out of a member of `t` ends in `t`.
pub open spec fn closed_under(c: Seq<(Seq<char>, MetaView)>, t: Set<Seq<char>>) -> bool {
    forall|x: Seq<char>, y: Seq<char>| #[trigger] t.contains(x) && #[trigger] edge(c, x, y) ==> t.contains(y)
}

/// `r` is the least set that holds `start` and is closed under the links of `c`.
pub open spec fn is_closure(c: Seq<(Seq<char>, MetaView)>, start: Set<Seq<char>>, r: Set<Seq<char>>) -> bool {
    &&& start.subset_of(r)
    &&& closed_under(c, r)
    &&& forall|t: Set<Seq<char>>| #[trigger] closed_under(c, t) && start.subset_of(t) ==> r.subset_of(t)
}

/// Every link target recorded in `c`, in entry order.
pub open spec fn all_links(c: Seq<(Seq<char>, MetaView)>) -> Seq<Seq<char>>
    decreases c.len(),
{
    if c.len() == 0 {
        Seq::empty()
    } else {
        all_links(c.drop_last()) + c.last().1.links
    }
}

proof fn lemma_link_in_all_links(c: Seq<(Seq<char>, MetaView)>, i: int, y: Seq<char>)
    requires
        0 <= i < c.len(),
        c[i].1.links.contains(y),
    ensures
        all_links(c).contains(y),
    decreases c.len(),
{
    let l = c.last().1.links;
    if i == c.len() - 1 {
        let k = choose|k: int| 0 <= k < l.len() && l[k] == y;
        assert((all_links(c.drop_last()) + l)[all_links(c.drop_last()).len() + k] == y);
    } else {
        assert(c.drop_last()[i] == c[i]);
        lemma_link_in_all_links(c.drop_last(), i, y);
        let k = choose|k: int| 0 <= k < all_links(c.drop_last()).len() && all_links(c.drop_last())[k] == y;
        assert((all_links(c.drop_last()) + l)[k] == y);
    }
}

proof fn lemma_filter_no_dup(s: Seq<Seq<char>>, pred: spec_fn(Seq<char>) -> bool)
    requires
        s.no_duplicates(),
    ensures
        s.filter(pred).no_duplicates(),
    decreases s.len(),
{
    broadcast use vstd::seq_lib::group_filter_ensures;
    reveal(Seq::filter);
    if s.len() > 0 {
        let d = s.drop_last();
        assert(d.no_duplicates()) by {
            assert forall|a: int, b: int| 0 <= a < d.len() && 0 <= b < d.len() && a != b implies d[a] != d[b] by {
                assert(s[a] != s[b]);
            }
        }
        lemma_filter_no_dup(d, pred);
        if pred(s.last()) {
            let f = d.filter(pred);
            assert(!f.contains(s.last())) by {
                if f.contains(s.last()) {
                    d.lemma_filter_contains_rev(pred, s.last());
                    let k = choose|k: int| 0 <= k < d.len() && d[k] == s.last();
                    assert(s[k] == s[s.len() - 1]);
                }
            }
            let g = f.push(s.last());
            assert forall|a: int, b: int| 0 <= a < g.len() && 0 <= b < g.len() && a != b implies g[a] != g[b] by {
                if a == f.len() {
                    assert(f.contains(g[b]));
                } else if b == f.len() {
                    assert(f.contains(g[a]));
                }
            }
        }
    }
}

/// Appends `x` to a list without repeats; its set of members gains `x`.
fn push_new(v: &mut Vec<String>, x: String)
    requires
        strs(old(v)@).no_duplicates(),
        !strs(old(v)@).contains(x@),
    ensures
        strs(final(v)@) == strs(old(v)@).push(x@),
        strs(final(v)@).no_duplicates(),
{
    let ghost s = strs(v@);
    let ghost xv = x@;
    v.push(x);
    let ghost t = strs(v@);
    assert(t =~= s.push(xv));
    assert forall|a: int, b: int| 0 <= a < t.len() && 0 <= b < t.len() && a != b implies t[a] != t[b] by {
        if a < s.len() && b < s.len() {
        } else if a == s.len() {
            assert(s.contains(s[b]));
        } else {
            assert(s.contains(s[a]));
        }
    }
}

/// The cross-sync closure of `start`: every file reachable from it along the dependency links
/// recorded in the cache, visited breadth-first, each file once. Cycles end the search naturally.
pub fn cross_sync_closure(start: &[String], cache: &FileCache) -> (r: Vec<String>)
    requires
        cache.wf(),
    ensures
        strs(r@).no_duplicates(),
        is_closure(cache@, strs(start@).to_set(), strs(r@).to_set()),
{
    let ghost c = cache@;
    let ghost st = strs(start@).to_set();
    let ghost u = st.union(all_links(c).to_set());
    let mut visited: Vec<String> = Vec::new();
    let mut i: usize = 0;
    while i < start.len()
        invariant
            i <= start.len(),
            st == strs(start@).to_set(),
            strs(visited@).no_duplicates(),
            strs(visited@).to_set() == strs(start@.take(i as int)).to_set(),
        decreases start.len() - i,
    {
        let ghost before = strs(visited@);
        assert(strs(start@.take(i + 1)) =~= strs(start@.take(i as int)).push(start@[i as int]@));
        if !holds_text(visited.as_slice(), start[i].as_str()) {
            push_new(&mut visited, start[i].clone());
            proof {
                before.lemma_push_to_set_commute(start@[i as int]@);
                strs(start@.take(i as int)).lemma_push_to_set_commute(start@[i as int]@);
            }
        } else {
            proof {
                strs(start@.take(i as int)).lemma_push_to_set_commute(start@[i as int]@);
                assert(before.to_set().insert(start@[i as int]@) =~= before.to_set());
            }
        }
        i = i + 1;
    }
    assert(start@.take(i as int) =~= start@);
    proof {
        assert forall|x: Seq<char>| strs(visited@).to_set().contains(x) implies u.contains(x) by {}
        assert forall|t: Set<Seq<char>>| #[trigger] closed_under(c, t) && st.subset_of(t) implies strs(
            visited@,
        ).to_set().subset_of(t) by {}
    }
    let mut head: usize = 0;
    while head < visited.len()
        invariant
            c == cache@,
            cache.wf(),
            u == st.union(all_links(c).to_set()),
            head <= visited.len(),
            strs(visited@).no_duplicates(),
            st.subset_of(strs(visited@).to_set()),
            strs(visited@).to_set().subset_of(u),
            forall|k: int, y: Seq<char>|
                0 <= k < head && #[trigger] edge(c, strs(visited@)[k], y) ==> strs(visited@).contains(y),
            forall|t: Set<Seq<char>>| #[trigger] closed_under(c, t) && st.subset_of(t) ==> strs(
                visited@,
            ).to_set().subset_of(t),
        decreases u.len() - head,
    {
        proof {
            strs(visited@).unique_seq_to_set();
            vstd::set_lib::lemma_len_subset(strs(visited@).to_set(), u);
        }
        let ghost v0 = strs(visited@);
        let ghost x = v0[head as int];
        let found = cache.find(visited[head].as_str());
        match found {
            Some(idx) => {
                let links = &cache.meta_at(idx).links;
                let mut j: usize = 0;
                while j < links.len()
                    invariant
                        c == cache@,
                        cache.wf(),
                        u == st.union(all_links(c).to_set()),
                        idx < c.len(),
                        c[idx as int].0 == x,
                        strs(links@) == c[idx as int].1.links,
                        j <= links.len(),
                        head < v0.len(),
                        x == v0[head as int],
                        strs(visited@).take(v0.len() as int) == v0,
                        v0.len() <= visited.len(),
                        strs(visited@).no_duplicates(),
                        st.subset_of(strs(visited@).to_set()),
                        strs(visited@).to_set().subset_of(u),
                        forall|jj: int| 0 <= jj < j ==> strs(visited@).contains(#[trigger] strs(links@)[jj]),
                        forall|t: Set<Seq<char>>| #[trigger] closed_under(c, t) && st.subset_of(t) ==> strs(
                            visited@,
                        ).to_set().subset_of(t),
                    decreases links.len() - j,
                {
                    let ghost before = strs(visited@);
                    let ghost y = strs(links@)[j as int];
                    if !holds_text(visited.as_slice(), links[j].as_str()) {
                        push_new(&mut visited, links[j].clone());
                        proof {
                            before.lemma_push_to_set_commute(y);
                            assert(c[idx as int].1.links.contains(y));
                            assert(edge(c, x, y));
                            lemma_link_in_all_links(c, idx as int, y);
                            assert(strs(visited@).take(v0.len() as int) =~= before.take(v0.len() as int));
                            assert(before.take(v0.len() as int)[head as int] == x);
                            assert(before[head as int] == x);
                            assert forall|t: Set<Seq<char>>| #[trigger] closed_under(c, t) && st.subset_of(t)
                                implies strs(visited@).to_set().subset_of(t) by {
                                assert(before.to_set().contains(x));
                                assert(t.contains(x));
                            }
                            assert forall|jj: int| 0 <= jj < j + 1 implies strs(visited@).contains(
                                #[trigger] strs(links@)[jj],
                            ) by {
                                if jj < j {
                                    let w = choose|w: int| 0 <= w < before.len() && before[w] == strs(links@)[jj];
                                    assert(strs(visited@)[w] == before[w]);
                                } else {
                                    assert(strs(visited@)[before.len() as int] == y);
                                }
                            }
                        }
                    }
                    j = j + 1;
                }
                proof {
                    assert forall|k: int, y: Seq<char>|
                        0 <= k < head + 1 && #[trigger] edge(c, strs(visited@)[k], y) implies strs(
                            visited@,
                        ).contains(y) by {
                        assert(strs(visited@)[k] == v0[k]);
                        if k == head {
                            let i2 = choose|i2: int| 0 <= i2 < c.len() && c[i2].0 == x && #[trigger] c[i2].1.links.contains(y);
                            lemma_sorted_unique(c, i2, idx as int);
                            let w = choose|w: int| 0 <= w < strs(links@).len() && strs(links@)[w] == y;
                            assert(strs(visited@).contains(strs(links@)[w]));
                        } else {
                            assert(edge(c, v0[k], y));
                            let w = choose|w: int| 0 <= w < v0.len() && v0[w] == y;
                            assert(strs(visited@)[w] == v0[w]);
                        }
                    }
                }
            },
            None => {
                proof {
                    assert forall|k: int, y: Seq<char>|
                        0 <= k < head + 1 && #[trigger] edge(c, strs(visited@)[k], y) implies strs(
                            visited@,
                        ).contains(y) by {
                        if k == head {
                            let i2 = choose|i2: int| 0 <= i2 < c.len() && c[i2].0 == x && #[trigger] c[i2].1.links.contains(y);
                            assert(has_key(c, x));
                        }
                    }
                }
            },
        }
        head = head + 1;
    }
    proof {
        let vs = strs(visited@);
        assert forall|x: Seq<char>, y: Seq<char>| #[trigger] vs.to_set().contains(x) && #[trigger] edge(c, x, y)
            implies vs.to_set().contains(y) by {
            let k = choose|k: int| 0 <= k < vs.len() && vs[k] == x;
            assert(edge(c, vs[k], y));
        }
    }
    visited
}

} // verus!

verus! {

/// A user-defined group: a minimal set of file and directory paths, with cached statistics.
#[derive(Debug)]
pub struct Group {
    pub id: String,
    pub name: String,
    pub paths: Vec<String>,
    pub stats: GroupStats,
    pub cross_sync_enabled: Option<bool>,
    pub token_limit: Option<usize>,
}

/// A stored path survives a scan when it is still a cached file or a scanned directory.
pub open spec fn survives(c: Seq<(Seq<char>, MetaView)>, dirs: Seq<Seq<char>>, p: Seq<char>) -> bool {
    has_key(c, p) || dirs.contains(p)
}

/// The stored paths that survive a scan, in their order.
pub open spec fn pruned(paths: Seq<Seq<char>>, c: Seq<(Seq<char>, MetaView)>, dirs: Seq<Seq<char>>) -> Seq<Seq<char>> {
    paths.filter(|p: Seq<char>| survives(c, dirs, p))
}

/// Drops the stored paths that are neither a cached file nor one of the scanned directories.
pub fn prune_paths(paths: &[String], cache: &FileCache, dirs: &[String]) -> (r: Vec<String>)
    requires
        cache.wf(),
    ensures
        strs(r@) == pruned(strs(paths@), cache@, strs(dirs@)),
{
    let ghost c = cache@;
    let ghost ds = strs(dirs@);
    let ghost pred = |p: Seq<char>| survives(c, ds, p);
    let dv: Vec<String> = copy_strings(dirs);
    let mut out: Vec<String> = Vec::new();
    let mut i: usize = 0;
    while i < paths.len()
        invariant
            i <= paths.len(),
            c == cache@,
            cache.wf(),
            strs(dv@) == ds,
            pred == (|p: Seq<char>| survives(c, ds, p)),
            strs(out@) == strs(paths@.take(i as int)).filter(pred),
        decreases paths.len() - i,
    {
        let p = &paths[i];
        let keep = cache.contains_key(p.as_str()) || holds_text(dv.as_slice(), p.as_str());
        proof {
            assert(strs(paths@.take(i + 1)) =~= strs(paths@.take(i as int)).push(p@));
            strs(paths@.take(i as int)).lemma_filter_push(p@, pred);
        }
        if keep {
            let ghost before = out@;
            out.push(p.clone());
            assert(strs(out@) =~= strs(before).push(p@));
        }
        i = i + 1;
    }
    assert(paths@.take(i as int) =~= paths@);
    out
}

/// `r` extends the stored `paths` by the cached files of the cross-sync closure of their
/// expansion that no stored path covers yet, each once.
pub open spec fn synced_paths(paths: Seq<Seq<char>>, c: Seq<(Seq<char>, MetaView)>, r: Seq<Seq<char>>) -> bool {
    &&& r.len() >= paths.len()
    &&& r.take(paths.len() as int) == paths
    &&& r.skip(paths.len() as int).no_duplicates()
    &&& exists|cl: Set<Seq<char>>| #[trigger] is_closure(c, expansion(paths, c).to_set(), cl)
        && forall|f: Seq<char>| #[trigger] r.skip(paths.len() as int).contains(f) <==> (cl.contains(f) && has_key(c, f) && !covered(paths, f))
}

/// Enlarges a group's stored paths by everything its files transitively link to: the cached
/// files of the closure that no stored path already covers are added one by one.
pub fn cross_sync_paths(paths: &[String], cache: &FileCache) -> (r: Vec<String>)
    requires
        cache.wf(),
    ensures
        synced_paths(strs(paths@), cache@, strs(r@)),
{
    let files = expand_group_paths_to_files(paths, cache);
    let closure = cross_sync_closure(files.as_slice(), cache);
    let ps = chars_of_all(paths);
    let ghost gp = strs(paths@);
    let mut out = copy_strings(paths);
    let ghost n = out@.len();
    let mut i: usize = 0;
    while i < closure.len()
        invariant
            i <= closure.len(),
            views(ps@) == gp,
            cache.wf(),
            n == gp.len(),
            strs(out@).len() >= n,
            strs(out@).take(n as int) == gp,
            strs(out@).skip(n as int) == strs(closure@.take(i as int)).filter(|f: Seq<char>| has_key(cache@, f) && !covered(gp, f)),
        decreases closure.len() - i,
    {
        let fc = chars_of(closure[i].as_str());
        let ghost before = strs(out@);
        let ghost pred = |f: Seq<char>| has_key(cache@, f) && !covered(gp, f);
        proof {
            assert(strs(closure@.take(i + 1)) =~= strs(closure@.take(i as int)).push(closure@[i as int]@));
            strs(closure@.take(i as int)).lemma_filter_push(closure@[i as int]@, pred);
        }
        if cache.contains_key(closure[i].as_str()) && !covered_exec(&ps, &fc) {
            out.push(closure[i].clone());
            assert(strs(out@) =~= before.push(closure@[i as int]@));
            assert(strs(out@).take(n as int) =~= before.take(n as int));
            assert(strs(out@).skip(n as int) =~= before.skip(n as int).push(closure@[i as int]@));
        }
        i = i + 1;
    }
    proof {
        let r = strs(out@);
        let pred = |f: Seq<char>| has_key(cache@, f) && !covered(gp, f);
        assert(closure@.take(i as int) =~= closure@);
        let cl = strs(closure@).to_set();
        broadcast use vstd::seq_lib::group_filter_ensures;
        assert forall|f: Seq<char>| #[trigger] r.skip(n as int).contains(f) <==> (cl.contains(f) && has_key(cache@, f) && !covered(gp, f)) by {
            assert(r.skip(n as int) == strs(closure@).filter(pred));
            if cl.contains(f) && has_key(cache@, f) && !covered(gp, f) {
                let k = choose|k: int| 0 <= k < strs(closure@).len() && strs(closure@)[k] == f;
                strs(closure@).lemma_filter_contains(pred, k);
            }
            if r.skip(n as int).contains(f) {
                strs(closure@).lemma_filter_contains_rev(pred, f);
                let k = choose|k: int| 0 <= k < strs(closure@).filter(pred).len() && strs(closure@).filter(pred)[k] == f;
                strs(closure@).lemma_filter_pred(pred, k);
            }
        }
        assert(is_closure(cache@, expansion(gp, cache@).to_set(), cl));
        lemma_filter_no_dup(strs(closure@), pred);
    }
    out
}

/// After a scan: drops the stored paths of each group that no longer exist, extends the groups
/// with cross-sync enabled by their closure, and recomputes every group's statistics.
pub fn update_groups_after_scan(groups: &mut Vec<Group>, cache: &FileCache, dirs: &[String])
    requires
        cache.wf(),
    ensures
        final(groups)@.len() == old(groups)@.len(),
        forall|i: int| 0 <= i < final(groups)@.len() ==> {
            let g = #[trigger] final(groups)@[i];
            let o = old(groups)@[i];
            let kept = pruned(strs(o.paths@), cache@, strs(dirs@));
            &&& g.id@ == o.id@
            &&& g.name@ == o.name@
            &&& g.cross_sync_enabled == o.cross_sync_enabled
            &&& g.token_limit == o.token_limit
            &&& (o.cross_sync_enabled == Some(true) ==> synced_paths(kept, cache@, strs(g.paths@)))
            &&& (o.cross_sync_enabled != Some(true) ==> strs(g.paths@) == kept)
            &&& g.stats == stats_of(strs(g.paths@), cache@)
        },
{
    let ghost og = groups@;
    let mut out: Vec<Group> = Vec::new();
    let mut i: usize = 0;
    while i < groups.len()
        invariant
            i <= groups@.len(),
            groups@ == og,
            cache.wf(),
            out@.len() == i,
            forall|k: int| 0 <= k < i ==> {
                let g = #[trigger] out@[k];
                let o = og[k];
                let kept = pruned(strs(o.paths@), cache@, strs(dirs@));
                &&& g.id@ == o.id@
                &&& g.name@ == o.name@
                &&& g.cross_sync_enabled == o.cross_sync_enabled
                &&& g.token_limit == o.token_limit
                &&& (o.cross_sync_enabled == Some(true) ==> synced_paths(kept, cache@, strs(g.paths@)))
                &&& (o.cross_sync_enabled != Some(true) ==> strs(g.paths@) == kept)
                &&& g.stats == stats_of(strs(g.paths@), cache@)
            },
        decreases og.len() - i,
    {
        let o = &groups[i];
        let kept = prune_paths(o.paths.as_slice(), cache, dirs);
        let sync_on = match o.cross_sync_enabled {
            Some(b) => b,
            None => false,
        };
        let paths = if sync_on {
            cross_sync_paths(kept.as_slice(), cache)
        } else {
            kept
        };
        let stats = recalculate_stats_for_paths(paths.as_slice(), cache);
        let g = Group {
            id: o.id.clone(),
            name: o.name.clone(),
            paths,
            stats,
            cross_sync_enabled: o.cross_sync_enabled,
            token_limit: o.token_limit,
        };
        out.push(g);
        i = i + 1;
    }
    *groups = out;
}

} // verus!
