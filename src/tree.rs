//! The project tree: built from walked paths, directories before files, each level by name.
use vstd::prelude::*;
use crate::models::FileNode;
use crate::outside::string_from_chars;
use crate::render::last_slash_end;
use crate::text::{chars_eq, chars_lt, chars_of, push_chars, push_str, text_eq, lex_lt, lemma_lex_total, lemma_lex_transitive};
use vstd::string::StrSliceExecFns;

verus! {

/// One walked path, relative to the project root, and whether it is a directory.
#[derive(Debug)]
pub struct TreeEntry {
    pub path: String,
    pub is_dir: bool,
}

/// Where the last component of `p` starts.
pub open spec fn name_start(p: Seq<char>) -> int {
    last_slash_end(p, p.len() as int)
}

/// The directory that holds `p`; empty at the top level.
pub open spec fn parent_of(p: Seq<char>) -> Seq<char> {
    if name_start(p) == 0 {
        Seq::empty()
    } else {
        p.take(name_start(p) - 1)
    }
}

/// The last component of `p`.
pub open spec fn name_of(p: Seq<char>) -> Seq<char> {
    p.skip(name_start(p))
}

/// Tree order of siblings: directories first, then by name, then by whole path.
pub open spec fn key_lt(a: (Seq<char>, bool), b: (Seq<char>, bool)) -> bool {
    (a.1 && !b.1) || (a.1 == b.1 && (lex_lt(name_of(a.0), name_of(b.0)) || (name_of(a.0) == name_of(
        b.0,
    ) && lex_lt(a.0, b.0))))
}

proof fn lemma_key_transitive(a: (Seq<char>, bool), b: (Seq<char>, bool), c: (Seq<char>, bool))
    requires
        key_lt(a, b),
        key_lt(b, c),
    ensures
        key_lt(a, c),
{
    if a.1 == b.1 && b.1 == c.1 {
        let (na, nb, nc) = (name_of(a.0), name_of(b.0), name_of(c.0));
        if lex_lt(na, nb) && lex_lt(nb, nc) {
            lemma_lex_transitive(na, nb, nc);
        } else if lex_lt(na, nb) {
        } else if lex_lt(nb, nc) {
        } else {
            lemma_lex_transitive(a.0, b.0, c.0);
        }
    }
}

proof fn lemma_key_total(a: (Seq<char>, bool), b: (Seq<char>, bool))
    requires
        a.0 != b.0,
    ensures
        key_lt(a, b) || key_lt(b, a),
{
    if a.1 == b.1 {
        if name_of(a.0) != name_of(b.0) {
            lemma_lex_total(name_of(a.0), name_of(b.0));
        } else {
            lemma_lex_total(a.0, b.0);
        }
    }
}

proof fn lemma_name_start_bounds(p: Seq<char>)
    ensures
        0 <= name_start(p) <= p.len(),
        name_start(p) > 0 ==> p[name_start(p) - 1] == '/',
{
    lemma_slash_end(p, p.len() as int);
}

proof fn lemma_slash_end(p: Seq<char>, j: int)
    requires
        0 <= j <= p.len(),
    ensures
        0 <= last_slash_end(p, j) <= j,
        last_slash_end(p, j) > 0 ==> p[last_slash_end(p, j) - 1] == '/',
    decreases j,
{
    if j > 0 && p[j - 1] != '/' {
        lemma_slash_end(p, j - 1);
    }
}

/// Where the last component of `p` starts.
fn name_start_exec(p: &Vec<char>) -> (r: usize)
    ensures
        r == name_start(p@),
{
    let mut a: usize = p.len();
    while a > 0 && p[a - 1] != '/'
        invariant
            a <= p.len(),
            last_slash_end(p@, p.len() as int) == last_slash_end(p@, a as int),
        decreases a,
    {
        a = a - 1;
    }
    a
}

fn sub_chars(p: &Vec<char>, from: usize, to: usize) -> (r: Vec<char>)
    requires
        from <= to <= p.len(),
    ensures
        r@ == p@.subrange(from as int, to as int),
{
    let mut out: Vec<char> = Vec::new();
    let mut k: usize = from;
    while k < to
        invariant
            from <= k <= to,
            to <= p.len(),
            out@ == p@.subrange(from as int, k as int),
        decreases to - k,
    {
        out.push(p[k]);
        assert(p@.subrange(from as int, k + 1) =~= p@.subrange(from as int, k as int).push(p[k as int]));
        k = k + 1;
    }
    out
}

/// The parent directory of `p`.
pub fn parent_chars(p: &Vec<char>) -> (r: Vec<char>)
    ensures
        r@ == parent_of(p@),
{
    let a = name_start_exec(p);
    proof {
        lemma_name_start_bounds(p@);
    }
    if a == 0 {
        Vec::new()
    } else {
        sub_chars(p, 0, a - 1)
    }
}

/// The last component of `p`.
pub fn name_chars(p: &Vec<char>) -> (r: Vec<char>)
    ensures
        r@ == name_of(p@),
{
    let a = name_start_exec(p);
    proof {
        lemma_name_start_bounds(p@);
    }
    let r = sub_chars(p, a, p.len());
    assert(r@ =~= p@.skip(a as int));
    r
}

fn key_lt_exec(a: &(Vec<char>, bool), b: &(Vec<char>, bool)) -> (r: bool)
    ensures
        r == key_lt((a.0@, a.1), (b.0@, b.1)),
{
    if a.1 != b.1 {
        return a.1;
    }
    let na = name_chars(&a.0);
    let nb = name_chars(&b.0);
    if chars_lt(&na, &nb) {
        true
    } else if chars_eq(&na, &nb) {
        chars_lt(&a.0, &b.0)
    } else {
        false
    }
}

/// The view of an entry list.
pub open spec fn entry_views(es: Seq<TreeEntry>) -> Seq<(Seq<char>, bool)> {
    es.map_values(|e: TreeEntry| (e.path@, e.is_dir))
}

/// Whether entry `e` is a direct child of directory `d`.
pub open spec fn is_child(e: (Seq<char>, bool), d: Seq<char>) -> bool {
    e.0.len() > 0 && parent_of(e.0) == d
}

/// The view of a child list under construction.
pub open spec fn kid_views(ks: Seq<(Vec<char>, bool)>) -> Seq<(Seq<char>, bool)> {
    ks.map_values(|k: (Vec<char>, bool)| (k.0@, k.1))
}

/// The direct children of `d` among `es`: one per distinct path, in tree order.
fn collect_children(es: &Vec<TreeEntry>, d: &Vec<char>) -> (r: Vec<(Vec<char>, bool)>)
    ensures
        forall|i: int, j: int| 0 <= i < j < r@.len() ==> key_lt(#[trigger] kid_views(r@)[i], #[trigger] kid_views(r@)[j]),
        forall|i: int| 0 <= i < r@.len() ==> entry_views(es@).contains(#[trigger] kid_views(r@)[i]) && is_child(kid_views(r@)[i], d@),
        forall|e: (Seq<char>, bool)| #[trigger] entry_views(es@).contains(e) && is_child(e, d@) ==> exists|i: int|
            0 <= i < r@.len() && #[trigger] kid_views(r@)[i].0 == e.0,
{
    let ghost ev = entry_views(es@);
    let mut kids: Vec<(Vec<char>, bool)> = Vec::new();
    let mut i: usize = 0;
    while i < es.len()
        invariant
            i <= es@.len(),
            ev == entry_views(es@),
            forall|a: int, b: int| 0 <= a < b < kids@.len() ==> key_lt(#[trigger] kid_views(kids@)[a], #[trigger] kid_views(kids@)[b]),
            forall|a: int| 0 <= a < kids@.len() ==> ev.contains(#[trigger] kid_views(kids@)[a]) && is_child(kid_views(kids@)[a], d@),
            forall|k: int| 0 <= k < i && #[trigger] is_child(ev[k], d@) ==> exists|a: int|
                0 <= a < kids@.len() && #[trigger] kid_views(kids@)[a].0 == ev[k].0,
        decreases es.len() - i,
    {
        let p = chars_of(es[i].path.as_str());
        let e = (p, es[i].is_dir);
        let ghost evi = ev[i as int];
        assert(evi == (e.0@, e.1));
        let par = parent_chars(&e.0);
        if e.0.len() > 0 && chars_eq(&par, d) {
            assert(ev.contains(evi));
            let mut q: usize = 0;
            let mut dup = false;
            while q < kids.len() && !dup
                invariant
                    q <= kids@.len(),
                    dup ==> q > 0 && kid_views(kids@)[q - 1].0 == e.0@,
                    !dup ==> forall|a: int| 0 <= a < q ==> kid_views(kids@)[a].0 != e.0@,
                decreases kids.len() - q,
            {
                if chars_eq(&kids[q].0, &e.0) {
                    dup = true;
                }
                q = q + 1;
            }
            let mut pos: usize = 0;
            if !dup {
                while pos < kids.len() && key_lt_exec(&kids[pos], &e)
                    invariant
                        pos <= kids@.len(),
                        forall|a: int| 0 <= a < pos ==> key_lt(#[trigger] kid_views(kids@)[a], (e.0@, e.1)),
                    decreases kids.len() - pos,
                {
                    pos = pos + 1;
                }
            }
            if dup {
                assert(kid_views(kids@)[q - 1].0 == ev[i as int].0);
            } else {
                let ghost old_kids = kid_views(kids@);
                proof {
                    if pos < kids@.len() {
                        lemma_key_total(old_kids[pos as int], (e.0@, e.1));
                        assert(key_lt((e.0@, e.1), old_kids[pos as int]));
                    }
                }
                let ghost ep = e.0@;
                kids.insert(pos, e);
                proof {
                    let nk = kid_views(kids@);
                    assert(nk =~= old_kids.insert(pos as int, (ep, evi.1)));
                    assert forall|a: int, b: int| 0 <= a < b < nk.len() implies key_lt(#[trigger] nk[a], #[trigger] nk[b]) by {
                        if b < pos {
                        } else if b == pos {
                        } else if a == pos {
                            if b - 1 > pos {
                                lemma_key_transitive(nk[a], old_kids[pos as int], old_kids[b - 1]);
                            }
                        } else if a < pos {
                            lemma_key_transitive(nk[a], (ep, evi.1), old_kids[pos as int]);
                            if b - 1 > pos {
                                lemma_key_transitive(nk[a], old_kids[pos as int], old_kids[b - 1]);
                            }
                        }
                    }
                    assert forall|k: int| 0 <= k < i + 1 && #[trigger] is_child(ev[k], d@) implies exists|a: int|
                        0 <= a < nk.len() && #[trigger] nk[a].0 == ev[k].0 by {
                        if k == i {
                            assert(nk[pos as int].0 == ev[k].0);
                        } else {
                            let a = choose|a: int| 0 <= a < old_kids.len() && #[trigger] old_kids[a].0 == ev[k].0;
                            if a < pos {
                                assert(nk[a].0 == ev[k].0);
                            } else {
                                assert(nk[a + 1].0 == ev[k].0);
                            }
                        }
                    }
                    assert forall|a: int| 0 <= a < nk.len() implies ev.contains(#[trigger] nk[a]) && is_child(nk[a], d@) by {
                        if a < pos {
                            assert(nk[a] == old_kids[a]);
                        } else if a > pos {
                            assert(nk[a] == old_kids[a - 1]);
                        }
                    }
                }
            }
        }
        i = i + 1;
    }
    proof {
        assert forall|e: (Seq<char>, bool)| #[trigger] ev.contains(e) && is_child(e, d@) implies exists|a: int|
            0 <= a < kids@.len() && #[trigger] kid_views(kids@)[a].0 == e.0 by {
            let k = choose|k: int| 0 <= k < ev.len() && ev[k] == e;
            assert(is_child(ev[k], d@));
        }
    }
    kids
}

} // verus!

verus! {

/// A node's path and whether it is a directory.
pub open spec fn node_key(n: FileNode) -> (Seq<char>, bool) {
    (n.path@, n.children is Some)
}

/// `cs` is the tree below directory `d` for the walked entries `es`: one node per distinct
/// child path, in tree order, named by its last component, each directory holding the tree
/// below it. `bound` bounds the length of every path.
#[verifier::opaque]
pub open spec fn tree_matches(cs: Seq<FileNode>, es: Seq<(Seq<char>, bool)>, d: Seq<char>, bound: nat) -> bool
    decreases bound - d.len(),
{
    &&& forall|i: int, j: int| 0 <= i < j < cs.len() ==> key_lt(node_key(#[trigger] cs[i]), node_key(#[trigger] cs[j]))
    &&& forall|i: int| 0 <= i < cs.len() ==> es.contains(node_key(#[trigger] cs[i])) && is_child(node_key(cs[i]), d)
        && cs[i].name@ == name_of(cs[i].path@)
    &&& forall|e: (Seq<char>, bool)| #[trigger] es.contains(e) && is_child(e, d) ==> exists|i: int|
        0 <= i < cs.len() && #[trigger] cs[i].path@ == e.0
    &&& forall|i: int| 0 <= i < cs.len() ==> match #[trigger] cs[i].children {
        Some(ch) => d.len() < cs[i].path@.len() <= bound && tree_matches(ch@, es, cs[i].path@, bound),
        None => true,
    }
}

/// The longest path among some entries.
pub open spec fn max_path_len(es: Seq<(Seq<char>, bool)>) -> nat
    decreases es.len(),
{
    if es.len() == 0 {
        0
    } else {
        let m = max_path_len(es.drop_last());
        if es.last().0.len() > m {
            es.last().0.len()
        } else {
            m
        }
    }
}

proof fn lemma_max_path_len(es: Seq<(Seq<char>, bool)>, e: (Seq<char>, bool))
    requires
        es.contains(e),
    ensures
        e.0.len() <= max_path_len(es),
    decreases es.len(),
{
    if es.last() != e {
        let k = choose|k: int| 0 <= k < es.len() && es[k] == e;
        assert(es.drop_last()[k] == e);
        lemma_max_path_len(es.drop_last(), e);
    }
}

proof fn lemma_parent_shorter(p: Seq<char>)
    requires
        p.len() > 0,
    ensures
        parent_of(p).len() < p.len(),
{
    lemma_name_start_bounds(p);
}

proof fn lemma_level_matches(
    cs: Seq<FileNode>,
    kv: Seq<(Seq<char>, bool)>,
    ev: Seq<(Seq<char>, bool)>,
    d: Seq<char>,
    bound: nat,
)
    requires
        cs.len() == kv.len(),
        forall|i: int, j: int| 0 <= i < j < kv.len() ==> key_lt(#[trigger] kv[i], #[trigger] kv[j]),
        forall|i: int| 0 <= i < kv.len() ==> ev.contains(#[trigger] kv[i]) && is_child(kv[i], d),
        forall|e: (Seq<char>, bool)| #[trigger] ev.contains(e) && is_child(e, d) ==> exists|i: int|
            0 <= i < kv.len() && #[trigger] kv[i].0 == e.0,
        forall|k: int| 0 <= k < cs.len() ==> node_key(#[trigger] cs[k]) == kv[k],
        forall|k: int| 0 <= k < cs.len() ==> (#[trigger] cs[k]).name@ == name_of(cs[k].path@),
        forall|k: int| 0 <= k < cs.len() ==> match #[trigger] cs[k].children {
            Some(ch) => d.len() < cs[k].path@.len() <= bound && tree_matches(ch@, ev, cs[k].path@, bound),
            None => true,
        },
    ensures
        tree_matches(cs, ev, d, bound),
{
    reveal(tree_matches);
    assert forall|i: int, k: int| 0 <= i < k < cs.len() implies key_lt(node_key(#[trigger] cs[i]), node_key(#[trigger] cs[k])) by {
        assert(key_lt(kv[i], kv[k]));
    }
    assert forall|i: int| 0 <= i < cs.len() implies ev.contains(node_key(#[trigger] cs[i])) && is_child(node_key(cs[i]), d)
        && cs[i].name@ == name_of(cs[i].path@) by {
        assert(node_key(cs[i]) == kv[i]);
    }
    assert forall|e: (Seq<char>, bool)| #[trigger] ev.contains(e) && is_child(e, d) implies exists|i: int|
        0 <= i < cs.len() && #[trigger] cs[i].path@ == e.0 by {
        let i = choose|i: int| 0 <= i < kv.len() && #[trigger] kv[i].0 == e.0;
        assert(node_key(cs[i]) == kv[i]);
    }
}

fn build_level(es: &Vec<TreeEntry>, d: &Vec<char>, bound: usize) -> (r: Vec<FileNode>)
    requires
        forall|e: (Seq<char>, bool)| #[trigger] entry_views(es@).contains(e) ==> e.0.len() <= bound,
        d@.len() <= bound,
    ensures
        tree_matches(r@, entry_views(es@), d@, bound as nat),
    decreases bound - d@.len(),
{
    let ghost ev = entry_views(es@);
    let kids = collect_children(es, d);
    let ghost kv = kid_views(kids@);
    let mut out: Vec<FileNode> = Vec::new();
    let mut j: usize = 0;
    while j < kids.len()
        invariant
            j <= kids@.len(),
            kv == kid_views(kids@),
            ev == entry_views(es@),
            forall|e: (Seq<char>, bool)| #[trigger] ev.contains(e) ==> e.0.len() <= bound,
            forall|i: int| 0 <= i < kv.len() ==> ev.contains(#[trigger] kv[i]) && is_child(kv[i], d@),
            out@.len() == j,
            forall|k: int| 0 <= k < j ==> node_key(#[trigger] out@[k]) == kv[k],
            forall|k: int| 0 <= k < j ==> (#[trigger] out@[k]).name@ == name_of(out@[k].path@),
            forall|k: int| 0 <= k < j ==> match #[trigger] out@[k].children {
                Some(ch) => d@.len() < out@[k].path@.len() <= bound && tree_matches(ch@, ev, out@[k].path@, bound as nat),
                None => true,
            },
        decreases kids.len() - j,
    {
        let kid = &kids[j];
        assert(kv[j as int] == (kid.0@, kid.1));
        proof {
            assert(ev.contains(kv[j as int]));
            lemma_parent_shorter(kid.0@);
        }
        let name = string_from_chars(&name_chars(&kid.0));
        let path = string_from_chars(&kid.0);
        let children = if kid.1 {
            Some(build_level(es, &kid.0, bound))
        } else {
            None
        };
        out.push(FileNode { name, path, children });
        j = j + 1;
    }
    proof {
        lemma_level_matches(out@, kv, ev, d@, bound as nat);
    }
    out
}

/// The longest path among the entries.
fn max_len(es: &Vec<TreeEntry>) -> (r: usize)
    ensures
        r == max_path_len(entry_views(es@)),
{
    let ghost ev = entry_views(es@);
    let mut m: usize = 0;
    let mut i: usize = 0;
    while i < es.len()
        invariant
            i <= es@.len(),
            ev == entry_views(es@),
            m == max_path_len(ev.take(i as int)),
        decreases es.len() - i,
    {
        assert(ev.take(i + 1).drop_last() =~= ev.take(i as int));
        let n = es[i].path.as_str().unicode_len();
        if n > m {
            m = n;
        }
        i = i + 1;
    }
    assert(ev.take(i as int) =~= ev);
    m
}

/// The top level of the tree of the walked entries (the root itself is not an entry).
pub fn build_tree(entries: &Vec<TreeEntry>) -> (r: Vec<FileNode>)
    ensures
        tree_matches(r@, entry_views(entries@), Seq::empty(), max_path_len(entry_views(entries@))),
{
    let bound = max_len(entries);
    proof {
        assert forall|e: (Seq<char>, bool)| #[trigger] entry_views(entries@).contains(e) implies e.0.len() <= bound by {
            lemma_max_path_len(entry_views(entries@), e);
        }
    }
    let empty: Vec<char> = Vec::new();
    build_level(entries, &empty, bound)
}

} // verus!

verus! {

/// The connector before a node's name.
pub open spec fn connector(last: bool) -> Seq<char> {
    if last {
        "└── "@
    } else {
        "├── "@
    }
}

/// What a node adds to the prefix of the lines below it.
pub open spec fn indent(last: bool) -> Seq<char> {
    if last {
        "    "@
    } else {
        "│   "@
    }
}

/// How file lines are annotated: whether content is inlined, the inlined text per path, and
/// the extensions whose content is left out.
pub struct FileMarks {
    pub inline: bool,
    pub table: Vec<(String, String)>,
    pub excluded_extensions: Vec<String>,
}

pub open spec fn marks_view(m: FileMarks) -> (bool, Seq<(Seq<char>, Seq<char>)>, Seq<Seq<char>>) {
    (
        m.inline,
        m.table@.map_values(|e: (String, String)| (e.0@, e.1@)),
        m.excluded_extensions@.map_values(|s: String| s@),
    )
}

/// The first text stored for `p` in a table.
pub open spec fn lookup_mark(t: Seq<(Seq<char>, Seq<char>)>, p: Seq<char>) -> Option<Seq<char>>
    decreases t.len(),
{
    if t.len() == 0 {
        None
    } else if t[0].0 == p {
        Some(t[0].1)
    } else {
        lookup_mark(t.drop_first(), p)
    }
}

/// What follows a file's name on its tree line.
pub open spec fn file_mark(m: (bool, Seq<(Seq<char>, Seq<char>)>, Seq<Seq<char>>), p: Seq<char>) -> Seq<char> {
    if !m.0 {
        Seq::empty()
    } else if m.2.contains(crate::render::extension_of(p)) {
        " [BỊ LOẠI TRỪ]"@
    } else {
        match lookup_mark(m.1, p) {
            Some(s) => seq![' '] + s,
            None => " [KHÔNG THỂ ĐỌC FILE]"@,
        }
    }
}

/// The lines of the nodes `cs[i..]` under `prefix`.
pub open spec fn render_from(
    cs: Seq<FileNode>,
    prefix: Seq<char>,
    i: int,
    m: (bool, Seq<(Seq<char>, Seq<char>)>, Seq<Seq<char>>),
) -> Seq<char>
    decreases cs, cs.len() - i,
{
    if 0 <= i < cs.len() {
        render_node(cs[i], prefix, i == cs.len() - 1, m) + render_from(cs, prefix, i + 1, m)
    } else {
        Seq::empty()
    }
}

/// The lines of one node: its own line (with `/` after a directory name), then its children.
pub open spec fn render_node(
    n: FileNode,
    prefix: Seq<char>,
    last: bool,
    m: (bool, Seq<(Seq<char>, Seq<char>)>, Seq<Seq<char>>),
) -> Seq<char>
    decreases n, 0int,
{
    match n.children {
        None => prefix + connector(last) + n.name@ + file_mark(m, n.path@) + seq!['\n'],
        Some(ch) => prefix + connector(last) + n.name@ + seq!['/', '\n'] + render_from(
            ch@,
            prefix + indent(last),
            0,
            m,
        ),
    }
}

fn lookup_mark_exec<'a>(t: &'a Vec<(String, String)>, p: &str) -> (r: Option<&'a String>)
    ensures
        match lookup_mark(t@.map_values(|e: (String, String)| (e.0@, e.1@)), p@) {
            Some(s) => r is Some && r->0@ == s,
            None => r is None,
        },
{
    let ghost tv = t@.map_values(|e: (String, String)| (e.0@, e.1@));
    let mut i: usize = 0;
    assert(tv.skip(0) =~= tv);
    while i < t.len()
        invariant
            i <= t@.len(),
            tv == t@.map_values(|e: (String, String)| (e.0@, e.1@)),
            lookup_mark(tv, p@) == lookup_mark(tv.skip(i as int), p@),
        decreases t.len() - i,
    {
        assert(tv.skip(i as int)[0] == tv[i as int]);
        assert(tv.skip(i as int).drop_first() =~= tv.skip(i + 1));
        if text_eq(t[i].0.as_str(), p) {
            return Some(&t[i].1);
        }
        i = i + 1;
    }
    None
}

fn push_file_mark(m: &FileMarks, p: &str, out: &mut Vec<char>)
    ensures
        final(out)@ == old(out)@ + file_mark(marks_view(*m), p@),
{
    if !m.inline {
        assert(old(out)@ + Seq::<char>::empty() =~= old(out)@);
        return;
    }
    let ext = crate::render::extension(p);
    if crate::models::holds_chars(m.excluded_extensions.as_slice(), &ext) {
        push_str(out, " [BỊ LOẠI TRỪ]");
    } else {
        match lookup_mark_exec(&m.table, p) {
            Some(s) => {
                out.push(' ');
                push_str(out, s.as_str());
                assert(out@ =~= old(out)@ + (seq![' '] + s@));
            },
            None => {
                push_str(out, " [KHÔNG THỂ ĐỌC FILE]");
            },
        }
    }
}

/// Appends the tree lines of `cs` under `prefix`.
pub fn format_tree_helper(cs: &Vec<FileNode>, prefix: &Vec<char>, m: &FileMarks, out: &mut Vec<char>)
    ensures
        final(out)@ == old(out)@ + render_from(cs@, prefix@, 0, marks_view(*m)),
    decreases cs@,
{
    let ghost mv = marks_view(*m);
    let ghost start = out@;
    let mut i: usize = 0;
    while i < cs.len()
        invariant
            i <= cs@.len(),
            mv == marks_view(*m),
            start + render_from(cs@, prefix@, 0, mv) == out@ + render_from(cs@, prefix@, i as int, mv),
        decreases cs.len() - i,
    {
        let ghost before = out@;
        let last = i + 1 == cs.len();
        render_node_exec(&cs[i], prefix, last, m, out);
        assert(render_from(cs@, prefix@, i as int, mv) == render_node(cs@[i as int], prefix@, last, mv) + render_from(
            cs@,
            prefix@,
            i + 1,
            mv,
        ));
        assert(before + (render_node(cs@[i as int], prefix@, last, mv) + render_from(cs@, prefix@, i + 1, mv))
            =~= (before + render_node(cs@[i as int], prefix@, last, mv)) + render_from(cs@, prefix@, i + 1, mv));
        i = i + 1;
    }
    assert(render_from(cs@, prefix@, i as int, mv) =~= Seq::<char>::empty());
    assert(out@ + Seq::<char>::empty() =~= out@);
}

fn render_node_exec(n: &FileNode, prefix: &Vec<char>, last: bool, m: &FileMarks, out: &mut Vec<char>)
    ensures
        final(out)@ == old(out)@ + render_node(*n, prefix@, last, marks_view(*m)),
    decreases *n,
{
    let ghost mv = marks_view(*m);
    push_chars(out, prefix);
    if last {
        push_str(out, "└── ");
    } else {
        push_str(out, "├── ");
    }
    push_str(out, n.name.as_str());
    match &n.children {
        None => {
            push_file_mark(m, n.path.as_str(), out);
            out.push('\n');
            assert(out@ =~= old(out)@ + render_node(*n, prefix@, last, mv));
        },
        Some(ch) => {
            out.push('/');
            out.push('\n');
            let mut p2 = prefix.clone();
            assert(p2@ =~= prefix@);
            if last {
                push_str(&mut p2, "    ");
            } else {
                push_str(&mut p2, "│   ");
            }
            let ghost mid = out@;
            format_tree_helper(ch, &p2, m, out);
            assert(out@ =~= old(out)@ + render_node(*n, prefix@, last, mv));
        },
    }
}

} // verus!

verus! {

/// The entries of the nodes `cs[i..]` and everything below them, in pre-order.
pub open spec fn flatten_from(cs: Seq<FileNode>, i: int) -> Seq<(Seq<char>, bool)>
    decreases cs, cs.len() - i,
{
    if 0 <= i < cs.len() {
        flatten_node(cs[i]) + flatten_from(cs, i + 1)
    } else {
        Seq::empty()
    }
}

/// The entries of one node and everything below it.
pub open spec fn flatten_node(n: FileNode) -> Seq<(Seq<char>, bool)>
    decreases n, 0int,
{
    match n.children {
        None => seq![(n.path@, false)],
        Some(ch) => seq![(n.path@, true)] + flatten_from(ch@, 0),
    }
}

/// `nodes` is the tree `cs` put in tree order: directories first, each level by name.
pub open spec fn ordered_from(nodes: Seq<FileNode>, cs: Seq<FileNode>) -> bool {
    tree_matches(nodes, flatten_from(cs, 0), Seq::empty(), max_path_len(flatten_from(cs, 0)))
}

fn flatten_entries(cs: &Vec<FileNode>, out: &mut Vec<TreeEntry>)
    ensures
        entry_views(final(out)@) == entry_views(old(out)@) + flatten_from(cs@, 0),
    decreases cs@,
{
    let ghost start = entry_views(out@);
    let mut i: usize = 0;
    while i < cs.len()
        invariant
            i <= cs@.len(),
            start + flatten_from(cs@, 0) == entry_views(out@) + flatten_from(cs@, i as int),
        decreases cs.len() - i,
    {
        let ghost before = entry_views(out@);
        flatten_node_entries(&cs[i], out);
        assert(flatten_from(cs@, i as int) == flatten_node(cs@[i as int]) + flatten_from(cs@, i + 1));
        assert(before + (flatten_node(cs@[i as int]) + flatten_from(cs@, i + 1)) =~= (before + flatten_node(
            cs@[i as int],
        )) + flatten_from(cs@, i + 1));
        i = i + 1;
    }
    assert(flatten_from(cs@, i as int) =~= Seq::<(Seq<char>, bool)>::empty());
    assert(entry_views(out@) + Seq::<(Seq<char>, bool)>::empty() =~= entry_views(out@));
}

fn flatten_node_entries(n: &FileNode, out: &mut Vec<TreeEntry>)
    ensures
        entry_views(final(out)@) == entry_views(old(out)@) + flatten_node(*n),
    decreases *n,
{
    let ghost start = entry_views(out@);
    match &n.children {
        None => {
            out.push(TreeEntry { path: n.path.clone(), is_dir: false });
            assert(entry_views(out@) =~= start + flatten_node(*n));
        },
        Some(ch) => {
            out.push(TreeEntry { path: n.path.clone(), is_dir: true });
            let ghost mid = entry_views(out@);
            assert(mid =~= start + seq![(n.path@, true)]);
            flatten_entries(ch, out);
            assert(entry_views(out@) =~= start + flatten_node(*n));
        },
    }
}

/// The tree `cs` rebuilt in tree order: directories first, each level by name.
pub fn order_tree(cs: &Vec<FileNode>) -> (r: Vec<FileNode>)
    ensures
        ordered_from(r@, cs@),
{
    let mut es: Vec<TreeEntry> = Vec::new();
    flatten_entries(cs, &mut es);
    assert(entry_views(es@) =~= flatten_from(cs@, 0));
    build_tree(&es)
}

} // verus!
