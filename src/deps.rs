//! Dependency links: import-like literals resolved to project files through an alias table.
use vstd::prelude::*;
use crate::models::{holds_chars, strs};
use crate::outside::{regex_accepts, clean_path, cleaned_path, regex_group_matches, regex_named_group, string_from_chars};
use crate::text::{chars_eq, chars_of, chars_start_with, has_prefix, push_chars, push_str};
use vstd::string::StrSliceExecFns;
use crate::tree::{parent_chars, parent_of};

verus! {

/// The import-like literals the resolver looks at: the `path` group of this pattern.
pub const IMPORT_PATTERN: &'static str = "(?:from|import|require)\\s*\\(?\\s*['\"](?P<path>[^'\"]+)['\"]\\s*\\)?";

/// The compiler options of a project configuration file that alias resolution reads.
#[derive(Debug)]
pub struct CompilerOptions {
    pub base_url: Option<String>,
    pub paths: Option<Vec<(String, Vec<String>)>>,
}

/// A project configuration file (`tsconfig.json` or `jsconfig.json`), as far as aliases go.
#[derive(Debug)]
pub struct TsConfig {
    pub compiler_options: Option<CompilerOptions>,
}

/// Alias prefix to base directory; keys are distinct.
pub open spec fn alias_view(a: Seq<(String, String)>) -> Seq<(Seq<char>, Seq<char>)> {
    a.map_values(|e: (String, String)| (e.0@, e.1@))
}

/// `s` without the suffix `/*`, if it has it.
pub open spec fn strip_wildcard(s: Seq<char>) -> Seq<char> {
    if s.len() >= 2 && s[s.len() - 2] == '/' && s[s.len() - 1] == '*' {
        s.take(s.len() - 2)
    } else {
        s
    }
}

fn strip_wildcard_exec(s: &str) -> (r: Vec<char>)
    ensures
        r@ == strip_wildcard(s@),
{
    let mut c = chars_of(s);
    let n = c.len();
    if n >= 2 && c[n - 2] == '/' && c[n - 1] == '*' {
        c.pop();
        c.pop();
        assert(c@ =~= s@.take(n - 2));
    }
    c
}

/// `rel` joined onto `base` as `Path::join` does: an absolute `rel` replaces `base`.
pub open spec fn join_path(base: Seq<char>, rel: Seq<char>) -> Seq<char> {
    if rel.len() > 0 && rel[0] == '/' {
        rel
    } else if base.len() == 0 {
        rel
    } else if base.last() == '/' {
        base + rel
    } else {
        base + seq!['/'] + rel
    }
}

fn join_path_exec(base: &Vec<char>, rel: &Vec<char>) -> (r: Vec<char>)
    ensures
        r@ == join_path(base@, rel@),
{
    if rel.len() > 0 && rel[0] == '/' {
        return rel.clone();
    }
    if base.len() == 0 {
        return rel.clone();
    }
    let mut out = base.clone();
    assert(out@ =~= base@);
    if base[base.len() - 1] != '/' {
        out.push('/');
    }
    push_chars(&mut out, rel);
    out
}

/// The table entry for one configured alias: the alias and the cleaned joined base.
pub open spec fn alias_entry(base_url: Seq<char>, alias: Seq<char>, first: Seq<char>) -> (Seq<char>, Seq<char>) {
    (strip_wildcard(alias), cleaned_path(join_path(base_url, strip_wildcard(first))))
}

/// `t` with `e` stored: replacing the first entry with the same key, or added at the end.
pub open spec fn table_insert(t: Seq<(Seq<char>, Seq<char>)>, e: (Seq<char>, Seq<char>)) -> Seq<(Seq<char>, Seq<char>)>
    decreases t.len(),
{
    if t.len() == 0 {
        seq![e]
    } else if t[0].0 == e.0 {
        t.update(0, e)
    } else {
        seq![t[0]] + table_insert(t.drop_first(), e)
    }
}

/// The alias table of some configured `paths`: the first replacement of each alias, with
/// trailing `/*` stripped, joined onto the base URL and cleaned.
pub open spec fn alias_table(base_url: Seq<char>, ps: Seq<(Seq<char>, Seq<Seq<char>>)>) -> Seq<(Seq<char>, Seq<char>)>
    decreases ps.len(),
{
    if ps.len() == 0 {
        Seq::empty()
    } else {
        let t = alias_table(base_url, ps.drop_last());
        let (alias, reps) = ps.last();
        if reps.len() > 0 {
            table_insert(t, alias_entry(base_url, alias, reps[0]))
        } else {
            t
        }
    }
}

pub open spec fn paths_view(ps: Seq<(String, Vec<String>)>) -> Seq<(Seq<char>, Seq<Seq<char>>)> {
    ps.map_values(|e: (String, Vec<String>)| (e.0@, strs(e.1@)))
}

/// The alias table a configuration yields; empty without compiler options or paths.
pub open spec fn config_aliases(cfg: TsConfig) -> Seq<(Seq<char>, Seq<char>)> {
    match cfg.compiler_options {
        Some(o) => match o.paths {
            Some(ps) => alias_table(
                match o.base_url {
                    Some(b) => b@,
                    None => seq!['.'],
                },
                paths_view(ps@),
            ),
            None => Seq::empty(),
        },
        None => Seq::empty(),
    }
}

fn table_insert_exec(t: &mut Vec<(String, String)>, k: String, v: String)
    ensures
        alias_view(final(t)@) == table_insert(alias_view(old(t)@), (k@, v@)),
{
    let ghost tv = alias_view(t@);
    let ghost e = (k@, v@);
    let kc = chars_of(k.as_str());
    let mut i: usize = 0;
    assert(tv.take(0) + tv.skip(0) =~= tv);
    while i < t.len()
        invariant
            i <= t@.len(),
            tv == alias_view(t@),
            tv == alias_view(old(t)@),
            kc@ == k@,
            e == (k@, v@),
            table_insert(tv, e) == tv.take(i as int) + table_insert(tv.skip(i as int), e),
        decreases t.len() - i,
    {
        let c = chars_of(t[i].0.as_str());
        assert(tv.skip(i as int)[0] == tv[i as int]);
        assert(tv[i as int].0 == c@);
        if chars_eq(&c, &kc) {
            assert(table_insert(tv.skip(i as int), e) == tv.skip(i as int).update(0, e));
            t.set(i, (k, v));
            assert(alias_view(t@) =~= tv.take(i as int) + tv.skip(i as int).update(0, e));
            return;
        }
        assert(tv.skip(i as int).drop_first() =~= tv.skip(i + 1));
        assert(tv.take(i + 1) =~= tv.take(i as int) + seq![tv[i as int]]);
        i = i + 1;
    }
    t.push((k, v));
    assert(alias_view(t@) =~= tv.take(i as int) + seq![e]);
}

/// Builds the alias table of a project configuration.
pub fn parse_config_aliases(config: &TsConfig) -> (r: Vec<(String, String)>)
    ensures
        alias_view(r@) == config_aliases(*config),
{
    let mut table: Vec<(String, String)> = Vec::new();
    match &config.compiler_options {
        Some(o) => match &o.paths {
            Some(ps) => {
                let base: Vec<char> = match &o.base_url {
                    Some(b) => chars_of(b.as_str()),
                    None => {
                        let mut d: Vec<char> = Vec::new();
                        d.push('.');
                        d
                    },
                };
                let ghost bv = base@;
                let ghost pv = paths_view(ps@);
                let mut i: usize = 0;
                while i < ps.len()
                    invariant
                        i <= ps@.len(),
                        bv == base@,
                        pv == paths_view(ps@),
                        alias_view(table@) == alias_table(bv, pv.take(i as int)),
                    decreases ps.len() - i,
                {
                    assert(pv.take(i + 1).drop_last() =~= pv.take(i as int));
                    let (alias, reps) = (&ps[i].0, &ps[i].1);
                    assert(pv[i as int] == (alias@, strs(reps@)));
                    if reps.len() > 0 {
                        let a = strip_wildcard_exec(alias.as_str());
                        let r0 = strip_wildcard_exec(reps[0].as_str());
                        let joined = join_path_exec(&base, &r0);
                        let cleaned = clean_path(string_from_chars(&joined).as_str());
                        table_insert_exec(&mut table, string_from_chars(&a), cleaned);
                    }
                    i = i + 1;
                }
                assert(pv.take(i as int) =~= pv);
            },
            None => {
                assert(alias_view(table@) =~= Seq::<(Seq<char>, Seq<char>)>::empty());
            },
        },
        None => {
            assert(alias_view(table@) =~= Seq::<(Seq<char>, Seq<char>)>::empty());
        },
    }
    table
}

/// Entry `i` holds the longest alias that prefixes `link` (the first such, were keys repeated).
pub open spec fn is_best_alias(t: Seq<(Seq<char>, Seq<char>)>, link: Seq<char>, i: int) -> bool {
    &&& 0 <= i < t.len()
    &&& has_prefix(link, t[i].0)
    &&& forall|j: int| 0 <= j < t.len() && #[trigger] has_prefix(link, t[j].0) ==> t[j].0.len() <= t[i].0.len()
    &&& forall|j: int| 0 <= j < i && #[trigger] has_prefix(link, t[j].0) ==> t[j].0.len() < t[i].0.len()
}

/// `s` without one leading `/`.
pub open spec fn strip_slash(s: Seq<char>) -> Seq<char> {
    if s.len() > 0 && s[0] == '/' {
        s.drop_first()
    } else {
        s
    }
}

/// The project path that a literal names before probing: through its longest alias, else
/// relative to the importing file's directory when it starts with `.`; bare names give none.
pub open spec fn link_target(cur: Seq<char>, link: Seq<char>, t: Seq<(Seq<char>, Seq<char>)>) -> Option<Seq<char>> {
    if exists|i: int| is_best_alias(t, link, i) {
        let i = choose|i: int| is_best_alias(t, link, i);
        Some(cleaned_path(join_path(t[i].1, strip_slash(link.skip(t[i].0.len() as int)))))
    } else if link.len() > 0 && link[0] == '.' {
        Some(cleaned_path(join_path(parent_of(cur), link)))
    } else {
        None
    }
}

/// The extensions tried, in order, when probing for a file.
pub open spec fn probe_exts() -> Seq<Seq<char>> {
    seq![".ts"@, ".tsx"@, ".js"@, ".jsx"@, ".json"@, ".css"@]
}

/// The first known file among `base + ext`, for the extensions from `k` on.
pub open spec fn probe_from(base: Seq<char>, files: Seq<Seq<char>>, k: int) -> Option<Seq<char>>
    decreases 6 - k,
{
    if k < 0 || k >= 6 {
        None
    } else if files.contains(base + probe_exts()[k]) {
        Some(base + probe_exts()[k])
    } else {
        probe_from(base, files, k + 1)
    }
}

/// The first known file among: the candidate itself, the candidate with each extension, and
/// the candidate's `/index` with each extension.
pub open spec fn probe(c: Seq<char>, files: Seq<Seq<char>>) -> Option<Seq<char>> {
    if files.contains(c) {
        Some(c)
    } else {
        match probe_from(c, files, 0) {
            Some(f) => Some(f),
            None => probe_from(c + "/index"@, files, 0),
        }
    }
}

/// The project file that the literal `link` in file `cur` resolves to, if any.
pub open spec fn resolved(
    cur: Seq<char>,
    link: Seq<char>,
    files: Seq<Seq<char>>,
    t: Seq<(Seq<char>, Seq<char>)>,
) -> Option<Seq<char>> {
    match link_target(cur, link, t) {
        Some(c) => probe(c, files),
        None => None,
    }
}

fn probe_ext(k: usize) -> (r: &'static str)
    requires
        k < 6,
    ensures
        r@ == probe_exts()[k as int],
{
    if k == 0 {
        ".ts"
    } else if k == 1 {
        ".tsx"
    } else if k == 2 {
        ".js"
    } else if k == 3 {
        ".jsx"
    } else if k == 4 {
        ".json"
    } else {
        ".css"
    }
}

fn probe_suffixes(base: &Vec<char>, files: &[String]) -> (r: Option<String>)
    ensures
        match probe_from(base@, strs(files@), 0) {
            Some(p) => r is Some && r->0@ == p,
            None => r is None,
        },
{
    let mut k: usize = 0;
    while k < 6
        invariant
            k <= 6,
            probe_from(base@, strs(files@), 0) == probe_from(base@, strs(files@), k as int),
        decreases 6 - k,
    {
        let mut cand = base.clone();
        assert(cand@ =~= base@);
        push_str(&mut cand, probe_ext(k));
        assert(cand@ =~= base@ + probe_exts()[k as int]);
        if holds_chars(files, &cand) {
            return Some(string_from_chars(&cand));
        }
        k = k + 1;
    }
    None
}

fn best_alias(t: &Vec<(String, String)>, link: &Vec<char>) -> (r: Option<usize>)
    ensures
        match r {
            Some(i) => is_best_alias(alias_view(t@), link@, i as int),
            None => !exists|i: int| is_best_alias(alias_view(t@), link@, i),
        },
{
    let ghost tv = alias_view(t@);
    let mut best: Option<usize> = None;
    let mut best_len: usize = 0;
    let mut j: usize = 0;
    while j < t.len()
        invariant
            j <= t@.len(),
            tv == alias_view(t@),
            match best {
                Some(i) => i < j && has_prefix(link@, tv[i as int].0) && best_len == tv[i as int].0.len()
                    && (forall|m: int| 0 <= m < j && #[trigger] has_prefix(link@, tv[m].0) ==> tv[m].0.len() <= best_len)
                    && (forall|m: int| 0 <= m < i && #[trigger] has_prefix(link@, tv[m].0) ==> tv[m].0.len() < best_len),
                None => forall|m: int| 0 <= m < j ==> !has_prefix(link@, #[trigger] tv[m].0),
            },
        decreases t.len() - j,
    {
        let a = chars_of(t[j].0.as_str());
        assert(tv[j as int].0 == a@);
        if chars_start_with(link, &a) {
            match best {
                Some(_) => {
                    if a.len() > best_len {
                        best = Some(j);
                        best_len = a.len();
                    }
                },
                None => {
                    best = Some(j);
                    best_len = a.len();
                },
            }
        }
        j = j + 1;
    }
    match best {
        Some(i) => {
            assert(is_best_alias(tv, link@, i as int));
        },
        None => {
            assert forall|i: int| !is_best_alias(tv, link@, i) by {
                if 0 <= i < tv.len() {
                    assert(!has_prefix(link@, tv[i].0));
                }
            }
        },
    }
    best
}

proof fn lemma_best_alias_unique(t: Seq<(Seq<char>, Seq<char>)>, link: Seq<char>, i: int, k: int)
    requires
        is_best_alias(t, link, i),
        is_best_alias(t, link, k),
    ensures
        i == k,
{
    assert(has_prefix(link, t[i].0));
    assert(has_prefix(link, t[k].0));
}

/// Resolves one import-like literal of the file `current_file_path` to a project file: through
/// the longest matching alias, or relative to the file's directory; then the first known file
/// among the candidate, the candidate with each extension, and its `/index` with each extension.
pub fn resolve_link(
    current_file_path: &str,
    link_path_str: &str,
    all_project_files: &[String],
    aliases: &Vec<(String, String)>,
) -> (r: Option<String>)
    ensures
        match resolved(current_file_path@, link_path_str@, strs(all_project_files@), alias_view(aliases@)) {
            Some(p) => r is Some && r->0@ == p,
            None => r is None,
        },
{
    let ghost tv = alias_view(aliases@);
    let link = chars_of(link_path_str);
    let target: Vec<char> = match best_alias(aliases, &link) {
        Some(i) => {
            proof {
                assert forall|k: int| is_best_alias(tv, link@, k) implies k == i by {
                    lemma_best_alias_unique(tv, link@, i as int, k);
                }
            }
            let alen = aliases[i].0.as_str().unicode_len();
            assert(tv[i as int].0.len() == alen);
            let mut rest: Vec<char> = Vec::new();
            let mut k: usize = alen;
            if k < link.len() && link[k] == '/' {
                k = k + 1;
            }
            let ghost from = k;
            while k < link.len()
                invariant
                    from <= k <= link@.len(),
                    rest@ == link@.subrange(from as int, k as int),
                decreases link.len() - k,
            {
                rest.push(link[k]);
                assert(link@.subrange(from as int, k + 1) =~= link@.subrange(from as int, k as int).push(link[k as int]));
                k = k + 1;
            }
            assert(has_prefix(link@, tv[i as int].0));
            assert(rest@ =~= strip_slash(link@.skip(alen as int)));
            let base = chars_of(aliases[i].1.as_str());
            let joined = join_path_exec(&base, &rest);
            chars_of(clean_path(string_from_chars(&joined).as_str()).as_str())
        },
        None => {
            if link.len() > 0 && link[0] == '.' {
                let cur = chars_of(current_file_path);
                let dir = parent_chars(&cur);
                let joined = join_path_exec(&dir, &link);
                chars_of(clean_path(string_from_chars(&joined).as_str()).as_str())
            } else {
                return None;
            }
        },
    };
    let ghost c = target@;
    assert(link_target(current_file_path@, link_path_str@, tv) == Some(c));
    if holds_chars(all_project_files, &target) {
        return Some(string_from_chars(&target));
    }
    match probe_suffixes(&target, all_project_files) {
        Some(f) => Some(f),
        None => {
            let mut idx = target.clone();
            assert(idx@ =~= c);
            push_str(&mut idx, "/index");
            probe_suffixes(&idx, all_project_files)
        },
    }
}

/// The literals that the import pattern finds in `content`, in order.
pub open spec fn import_literals(content: Seq<char>) -> Seq<Option<Seq<char>>> {
    if regex_accepts(IMPORT_PATTERN@) {
        regex_group_matches(IMPORT_PATTERN@, "path"@, content)
    } else {
        Seq::empty()
    }
}

/// The distinct files that some literals resolve to, in order of first appearance.
pub open spec fn collect_links(
    ms: Seq<Option<Seq<char>>>,
    cur: Seq<char>,
    files: Seq<Seq<char>>,
    t: Seq<(Seq<char>, Seq<char>)>,
) -> Seq<Seq<char>>
    decreases ms.len(),
{
    if ms.len() == 0 {
        Seq::empty()
    } else {
        let r = collect_links(ms.drop_last(), cur, files, t);
        match ms.last() {
            Some(l) => match resolved(cur, l, files, t) {
                Some(x) => if r.contains(x) {
                    r
                } else {
                    r.push(x)
                },
                None => r,
            },
            None => r,
        }
    }
}

/// The project files that `content` statically imports, each once, in order of first import.
pub fn analyze_dependencies(
    content: &str,
    current_file_path: &str,
    all_project_files: &[String],
    aliases: &Vec<(String, String)>,
) -> (r: Vec<String>)
    ensures
        strs(r@) == collect_links(
            import_literals(content@),
            current_file_path@,
            strs(all_project_files@),
            alias_view(aliases@),
        ),
{
    let mut out: Vec<String> = Vec::new();
    let found = regex_named_group(IMPORT_PATTERN, "path", content);
    let ms = match found {
        Some(v) => v,
        None => {
            return out;
        },
    };
    let ghost gm = regex_group_matches(IMPORT_PATTERN@, "path"@, content@);
    let ghost files = strs(all_project_files@);
    let ghost t = alias_view(aliases@);
    let mut i: usize = 0;
    while i < ms.len()
        invariant
            i <= ms@.len(),
            ms@.len() == gm.len(),
            gm == import_literals(content@),
            files == strs(all_project_files@),
            t == alias_view(aliases@),
            forall|k: int| 0 <= k < ms@.len() ==> match #[trigger] ms@[k] {
                Some(s) => gm[k] == Some(s@),
                None => gm[k] is None,
            },
            strs(out@) == collect_links(gm.take(i as int), current_file_path@, files, t),
        decreases ms.len() - i,
    {
        assert(gm.take(i + 1).drop_last() =~= gm.take(i as int));
        assert(gm.take(i + 1).last() == gm[i as int]);
        match &ms[i] {
            Some(l) => {
                match resolve_link(current_file_path, l.as_str(), all_project_files, aliases) {
                    Some(x) => {
                        let xc = chars_of(x.as_str());
                        if !holds_chars(out.as_slice(), &xc) {
                            let ghost before = strs(out@);
                            out.push(x);
                            assert(strs(out@) =~= before.push(xc@));
                        }
                    },
                    None => {},
                }
            },
            None => {},
        }
        i = i + 1;
    }
    assert(gm.take(i as int) =~= gm);
    out
}

} // verus!
