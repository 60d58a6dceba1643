//! Renders a directory tree and the transformed content of chosen files into one text.
use vstd::prelude::*;
use crate::lines::{blank, is_blank, lines_of};
use crate::models::{strs, FileCache, FileNode, MetaView};
use crate::outside::{decode_lossy, lossy_utf8, string_from_chars};
use vstd::string::StrSliceExecFns;
use crate::render::{
    comments_removed, compress_content_for_tree, compressed, extension, extension_of, number_lines,
    numbered, remove_comments_from_content, remove_debug_logs_from_content,
    debug_removed, splice_excluded, spliced,
};
use crate::text::{chars_of, lex_lt, lemma_lex_irreflexive, lemma_lex_transitive, push_chars, push_str, text_eq, text_lt};
use crate::tree::{order_tree, ordered_from,
    build_tree, entry_views, marks_view, max_path_len, format_tree_helper, render_from, tree_matches,
    FileMarks, TreeEntry,
};
use vstd::utf8::encode_utf8;

verus! {

/// A file chosen for export, with its content where it could be read as text.
#[derive(Debug)]
pub struct FileText {
    pub path: String,
    pub content: Option<String>,
}

/// How a context is rendered.
#[derive(Debug)]
pub struct ExportOptions {
    pub use_full_tree: bool,
    pub with_line_numbers: bool,
    pub without_comments: bool,
    pub remove_debug_logs: bool,
    pub super_compressed: bool,
    pub always_apply_text: Option<String>,
    pub exclude_extensions: Vec<String>,
}

pub open spec fn text_views(fs: Seq<FileText>) -> Seq<(Seq<char>, Option<Seq<char>>)> {
    fs.map_values(
        |f: FileText|
            (
                f.path@,
                match f.content {
                    Some(c) => Some(c@),
                    None => None,
                },
            ),
    )
}

/// The metadata stored for `p`, the first match.
pub open spec fn meta_for(c: Seq<(Seq<char>, MetaView)>, p: Seq<char>) -> Option<MetaView>
    decreases c.len(),
{
    if c.len() == 0 {
        None
    } else if c[0].0 == p {
        Some(c[0].1)
    } else {
        meta_for(c.drop_first(), p)
    }
}

/// The exclusion ranges recorded for `p`; none when it has no record.
pub open spec fn ranges_for(c: Seq<(Seq<char>, MetaView)>, p: Seq<char>) -> Seq<(usize, usize)> {
    match meta_for(c, p) {
        Some(m) => match m.excluded_ranges {
            Some(r) => r,
            None => Seq::empty(),
        },
        None => Seq::empty(),
    }
}

/// The content after the byte ranges are cut out; untouched when there are none.
pub open spec fn after_exclusions(content: Seq<char>, ranges: Seq<(usize, usize)>) -> Seq<char> {
    if ranges.len() == 0 {
        content
    } else {
        lossy_utf8(spliced(encode_utf8(content), ranges))
    }
}

/// A file's content after every transform that the options ask for, in order: exclusion
/// ranges, comments, debug logs.
pub open spec fn transformed(
    content: Seq<char>,
    p: Seq<char>,
    c: Seq<(Seq<char>, MetaView)>,
    without_comments: bool,
    remove_debug_logs: bool,
) -> Seq<char> {
    let a = after_exclusions(content, ranges_for(c, p));
    let b = if without_comments {
        comments_removed(a, p)
    } else {
        a
    };
    if remove_debug_logs {
        debug_removed(b)
    } else {
        b
    }
}

fn ranges_exec(cache: &FileCache, p: &str) -> (r: Vec<(usize, usize)>)
    ensures
        r@ == ranges_for(cache@, p@),
{
    let ghost c = cache@;
    let mut i: usize = 0;
    assert(c.skip(0) =~= c);
    while i < cache.len()
        invariant
            i <= c.len(),
            c == cache@,
            meta_for(c, p@) == meta_for(c.skip(i as int), p@),
        decreases c.len() - i,
    {
        assert(c.skip(i as int)[0] == c[i as int]);
        assert(c.skip(i as int).drop_first() =~= c.skip(i + 1));
        if text_eq(cache.path_at(i).as_str(), p) {
            let m = cache.meta_at(i);
            return match &m.excluded_ranges {
                Some(v) => crate::models::copy_ranges(v),
                None => Vec::new(),
            };
        }
        i = i + 1;
    }
    Vec::new()
}

/// Applies the transforms that the options ask for to one file's content.
pub fn transform_content(
    content: &str,
    path: &str,
    cache: &FileCache,
    without_comments: bool,
    remove_debug_logs: bool,
) -> (r: String)
    ensures
        r@ == transformed(content@, path@, cache@, without_comments, remove_debug_logs),
{
    let ranges = ranges_exec(cache, path);
    let a = if ranges.len() == 0 {
        content.to_owned()
    } else {
        let bytes = content.as_bytes_vec();
        let kept = splice_excluded(bytes.as_slice(), ranges.as_slice());
        decode_lossy(kept.as_slice())
    };
    let b = if without_comments {
        remove_comments_from_content(a.as_str(), path)
    } else {
        a
    };
    if remove_debug_logs {
        remove_debug_logs_from_content(b.as_str())
    } else {
        b
    }
}

/// The text read for `p`, the first entry that names it.
pub open spec fn content_for(fs: Seq<(Seq<char>, Option<Seq<char>>)>, p: Seq<char>) -> Option<Seq<char>>
    decreases fs.len(),
{
    if fs.len() == 0 {
        None
    } else if fs[0].0 == p {
        fs[0].1
    } else {
        content_for(fs.drop_first(), p)
    }
}

fn content_exec<'a>(files: &'a [FileText], p: &str) -> (r: Option<&'a String>)
    ensures
        match content_for(text_views(files@), p@) {
            Some(s) => r is Some && r->0@ == s,
            None => r is None,
        },
{
    let ghost fv = text_views(files@);
    let mut i: usize = 0;
    assert(fv.skip(0) =~= fv);
    while i < files.len()
        invariant
            i <= fv.len(),
            fv == text_views(files@),
            content_for(fv, p@) == content_for(fv.skip(i as int), p@),
        decreases files.len() - i,
    {
        assert(fv.skip(i as int)[0] == fv[i as int]);
        assert(fv.skip(i as int).drop_first() =~= fv.skip(i + 1));
        if text_eq(files[i].path.as_str(), p) {
            return match &files[i].content {
                Some(s) => Some(s),
                None => None,
            };
        }
        i = i + 1;
    }
    None
}

/// `p` with each backslash turned into a slash.
pub open spec fn forward_slashes(p: Seq<char>) -> Seq<char> {
    p.map_values(|c: char| if c == '\\' { '/' } else { c })
}

fn forward_slashes_exec(p: &str) -> (r: Vec<char>)
    ensures
        r@ == forward_slashes(p@),
{
    let cs = chars_of(p);
    let mut out: Vec<char> = Vec::new();
    let mut i: usize = 0;
    while i < cs.len()
        invariant
            i <= cs.len(),
            cs@ == p@,
            out@ == forward_slashes(cs@.take(i as int)),
        decreases cs.len() - i,
    {
        if cs[i] == '\\' {
            out.push('/');
        } else {
            out.push(cs[i]);
        }
        assert(forward_slashes(cs@.take(i + 1)) =~= forward_slashes(cs@.take(i as int)).push(out@.last()));
        i = i + 1;
    }
    assert(cs@.take(i as int) =~= cs@);
    out
}

/// The rule between file blocks.
pub open spec fn rule() -> Seq<char> {
    "================================================\n"@
}

/// One file's block: a header naming it, then its (possibly numbered) content.
pub open spec fn file_block(p: Seq<char>, t: Seq<char>, with_line_numbers: bool) -> Seq<char> {
    rule() + "FILE: "@ + forward_slashes(p) + seq!['\n'] + rule() + (if with_line_numbers {
        numbered(lines_of(t))
    } else {
        t
    }) + "\n\n"@
}

/// The always-apply text of the options.
pub open spec fn always_view(o: ExportOptions) -> Option<Seq<char>> {
    match o.always_apply_text {
        Some(t) => Some(t@),
        None => None,
    }
}

/// The options as plain values.
pub open spec fn opts_view(o: ExportOptions) -> (bool, bool, bool, Seq<Seq<char>>) {
    (o.with_line_numbers, o.without_comments, o.remove_debug_logs, strs(o.exclude_extensions@))
}

/// The blocks of the files `ps`, in order, skipping excluded extensions and files without text.
pub open spec fn blocks(
    ps: Seq<Seq<char>>,
    fs: Seq<(Seq<char>, Option<Seq<char>>)>,
    c: Seq<(Seq<char>, MetaView)>,
    o: (bool, bool, bool, Seq<Seq<char>>),
) -> Seq<char>
    decreases ps.len(),
{
    if ps.len() == 0 {
        Seq::empty()
    } else {
        let p = ps.last();
        let rest = blocks(ps.drop_last(), fs, c, o);
        if o.3.contains(extension_of(p)) {
            rest
        } else {
            match content_for(fs, p) {
                Some(t) => rest + file_block(p, transformed(t, p, c, o.1, o.2), o.0),
                None => rest,
            }
        }
    }
}

/// The inlined text of each readable file for the compressed tree.
pub open spec fn mark_table(
    fs: Seq<(Seq<char>, Option<Seq<char>>)>,
    c: Seq<(Seq<char>, MetaView)>,
    o: (bool, bool, bool, Seq<Seq<char>>),
) -> Seq<(Seq<char>, Seq<char>)>
    decreases fs.len(),
{
    if fs.len() == 0 {
        Seq::empty()
    } else {
        let rest = mark_table(fs.drop_last(), c, o);
        match fs.last().1 {
            Some(t) => rest.push(
                (fs.last().0, seq!['['] + compressed(transformed(t, fs.last().0, c, o.1, o.2)) + seq![']']),
            ),
            None => rest,
        }
    }
}

/// The text appended after everything else when the always-apply text is not blank.
pub open spec fn suffix(t: Option<Seq<char>>) -> Seq<char> {
    match t {
        Some(s) => if is_blank(s) {
            Seq::empty()
        } else {
            "\n"@ + rule() + "**ALWAYS APPLY**\n"@ + rule() + s + seq!['\n']
        },
        None => Seq::empty(),
    }
}

/// The whole context for the tree `nodes` and the sorted file list `ps`.
pub open spec fn context_text(
    nodes: Seq<FileNode>,
    ps: Seq<Seq<char>>,
    fs: Seq<(Seq<char>, Option<Seq<char>>)>,
    c: Seq<(Seq<char>, MetaView)>,
    super_compressed: bool,
    o: (bool, bool, bool, Seq<Seq<char>>),
    always: Option<Seq<char>>,
) -> Seq<char> {
    let body = if super_compressed {
        "Directory structure:\n"@ + render_from(nodes, Seq::empty(), 0, (true, mark_table(fs, c, o), o.3))
    } else {
        "Directory structure:\n"@ + render_from(nodes, Seq::empty(), 0, (false, Seq::empty(), o.3)) + "\n\n"@
            + blocks(ps, fs, c, o)
    };
    body + suffix(always)
}

/// Sorted by code point, repeats allowed.
pub open spec fn paths_sorted(s: Seq<Seq<char>>) -> bool {
    forall|i: int, j: int| 0 <= i < j < s.len() ==> !lex_lt(#[trigger] s[j], #[trigger] s[i])
}

/// The paths in lexicographic order.
pub fn sort_paths(v: &[String]) -> (r: Vec<String>)
    ensures
        paths_sorted(strs(r@)),
        strs(r@).to_multiset() == strs(v@).to_multiset(),
{
    broadcast use vstd::seq_lib::to_multiset_build, vstd::seq_lib::to_multiset_insert;
    let mut out: Vec<String> = Vec::new();
    let mut i: usize = 0;
    assert(strs(out@) =~= strs(v@.take(0)));
    while i < v.len()
        invariant
            i <= v@.len(),
            paths_sorted(strs(out@)),
            strs(out@).to_multiset() == strs(v@.take(i as int)).to_multiset(),
        decreases v.len() - i,
    {
        let x = &v[i];
        let mut pos: usize = 0;
        while pos < out.len() && !text_lt(x.as_str(), out[pos].as_str())
            invariant
                pos <= out@.len(),
                forall|a: int| 0 <= a < pos ==> !lex_lt(x@, #[trigger] strs(out@)[a]),
            decreases out.len() - pos,
        {
            pos = pos + 1;
        }
        let ghost o = strs(out@);
        out.insert(pos, x.clone());
        proof {
            let n = strs(out@);
            assert(n =~= o.insert(pos as int, x@));
            assert(strs(v@.take(i + 1)) =~= strs(v@.take(i as int)).push(x@));
            vstd::seq_lib::to_multiset_insert(o, pos as int, x@);
            vstd::seq_lib::to_multiset_build(strs(v@.take(i as int)), x@);
            assert forall|a: int, b: int| 0 <= a < b < n.len() implies !lex_lt(#[trigger] n[b], #[trigger] n[a]) by {
                if a == pos {
                    if b - 1 >= pos {
                        if lex_lt(n[b], x@) {
                            lemma_lex_transitive(o[b - 1], x@, o[pos as int]);
                            if b - 1 == pos {
                                lemma_lex_irreflexive(o[pos as int]);
                            }
                        }
                    }
                } else if b == pos {
                } else if a < pos && b > pos {
                } else {
                }
            }
        }
        i = i + 1;
    }
    assert(v@.take(i as int) =~= v@);
    out
}

} // verus!

verus! {

/// Directory entries for the ancestors of `p` that end before index `j`, outermost first.
pub open spec fn dir_entries_of(p: Seq<char>, j: int) -> Seq<(Seq<char>, bool)>
    decreases j,
{
    if j <= 0 {
        Seq::empty()
    } else {
        let r = dir_entries_of(p, j - 1);
        if j - 1 > 0 && j - 1 < p.len() && p[j - 1] == '/' {
            r.push((p.take(j - 1), true))
        } else {
            r
        }
    }
}

/// The entries of the minimal tree of some file paths: each file, preceded by its ancestors.
pub open spec fn minimal_entries(ps: Seq<Seq<char>>) -> Seq<(Seq<char>, bool)>
    decreases ps.len(),
{
    if ps.len() == 0 {
        Seq::empty()
    } else {
        minimal_entries(ps.drop_last()) + dir_entries_of(ps.last(), ps.last().len() as int) + seq![
            (ps.last(), false),
        ]
    }
}

/// The entries from which the minimal tree of `paths` is built.
pub fn minimal_tree_entries(paths: &[String]) -> (r: Vec<TreeEntry>)
    ensures
        entry_views(r@) == minimal_entries(strs(paths@)),
{
    let mut out: Vec<TreeEntry> = Vec::new();
    let mut i: usize = 0;
    while i < paths.len()
        invariant
            i <= paths@.len(),
            entry_views(out@) == minimal_entries(strs(paths@.take(i as int))),
        decreases paths.len() - i,
    {
        let p = chars_of(paths[i].as_str());
        let ghost base = entry_views(out@);
        let mut cur: Vec<char> = Vec::new();
        let mut j: usize = 0;
        while j < p.len()
            invariant
                j <= p@.len(),
                cur@ == p@.take(j as int),
                entry_views(out@) == base + dir_entries_of(p@, j as int),
            decreases p.len() - j,
        {
            if j > 0 && p[j] == '/' {
                let ghost before = entry_views(out@);
                out.push(TreeEntry { path: string_from_chars(&cur), is_dir: true });
                assert(entry_views(out@) =~= before.push((p@.take(j as int), true)));
                assert(entry_views(out@) =~= base + dir_entries_of(p@, j + 1));
            } else {
                assert(dir_entries_of(p@, j + 1) == dir_entries_of(p@, j as int));
            }
            cur.push(p[j]);
            assert(cur@ =~= p@.take(j + 1));
            j = j + 1;
        }
        let ghost before = entry_views(out@);
        out.push(TreeEntry { path: paths[i].clone(), is_dir: false });
        proof {
            let ps = strs(paths@.take(i + 1));
            assert(ps.drop_last() =~= strs(paths@.take(i as int)));
            assert(ps.last() == p@);
            assert(entry_views(out@) =~= before.push((p@, false)));
            assert(entry_views(out@) =~= minimal_entries(ps));
        }
        i = i + 1;
    }
    assert(paths@.take(i as int) =~= paths@);
    out
}

/// The minimal tree of some file paths: only their directories and the files themselves.
pub fn minimal_tree(paths: &[String]) -> (r: Vec<FileNode>)
    ensures
        tree_matches(
            r@,
            minimal_entries(strs(paths@)),
            Seq::empty(),
            max_path_len(minimal_entries(strs(paths@))),
        ),
{
    let es = minimal_tree_entries(paths);
    build_tree(&es)
}

fn push_file_block(p: &str, t: &str, with_line_numbers: bool, out: &mut Vec<char>)
    ensures
        final(out)@ == old(out)@ + file_block(p@, t@, with_line_numbers),
{
    push_str(out, "================================================\n");
    push_str(out, "FILE: ");
    let fp = forward_slashes_exec(p);
    push_chars(out, &fp);
    out.push('\n');
    push_str(out, "================================================\n");
    if with_line_numbers {
        let nl = number_lines(t);
        push_chars(out, &nl);
    } else {
        push_str(out, t);
    }
    push_str(out, "\n\n");
    assert(out@ =~= old(out)@ + file_block(p@, t@, with_line_numbers));
}

/// Appends the blocks of the files `ps`.
fn push_blocks(ps: &Vec<String>, files: &[FileText], cache: &FileCache, opts: &ExportOptions, out: &mut Vec<char>)
    ensures
        final(out)@ == old(out)@ + blocks(strs(ps@), text_views(files@), cache@, opts_view(*opts)),
{
    let ghost o = opts_view(*opts);
    let ghost start = out@;
    let mut i: usize = 0;
    while i < ps.len()
        invariant
            i <= ps@.len(),
            o == opts_view(*opts),
            out@ == start + blocks(strs(ps@.take(i as int)), text_views(files@), cache@, o),
        decreases ps.len() - i,
    {
        let p = &ps[i];
        let ghost pre = strs(ps@.take(i + 1));
        assert(pre.drop_last() =~= strs(ps@.take(i as int)));
        assert(pre.last() == p@);
        let ext = extension(p.as_str());
        if !crate::models::holds_chars(opts.exclude_extensions.as_slice(), &ext) {
            match content_exec(files, p.as_str()) {
                Some(content) => {
                    let t = transform_content(content.as_str(), p.as_str(), cache, opts.without_comments, opts.remove_debug_logs);
                    push_file_block(p.as_str(), t.as_str(), opts.with_line_numbers, out);
                },
                None => {},
            }
        }
        i = i + 1;
    }
    assert(ps@.take(i as int) =~= ps@);
}

/// The inlined text of each readable file, for the compressed tree.
fn build_mark_table(files: &[FileText], cache: &FileCache, opts: &ExportOptions) -> (r: Vec<(String, String)>)
    ensures
        r@.map_values(|e: (String, String)| (e.0@, e.1@)) == mark_table(text_views(files@), cache@, opts_view(*opts)),
{
    let ghost o = opts_view(*opts);
    let mut out: Vec<(String, String)> = Vec::new();
    let mut i: usize = 0;
    while i < files.len()
        invariant
            i <= files@.len(),
            o == opts_view(*opts),
            out@.map_values(|e: (String, String)| (e.0@, e.1@)) == mark_table(text_views(files@.take(i as int)), cache@, o),
        decreases files.len() - i,
    {
        let f = &files[i];
        let ghost pre = text_views(files@.take(i + 1));
        assert(pre.drop_last() =~= text_views(files@.take(i as int)));
        match &f.content {
            Some(content) => {
                let t = transform_content(content.as_str(), f.path.as_str(), cache, opts.without_comments, opts.remove_debug_logs);
                let squeezed = compress_content_for_tree(t.as_str());
                let mut m: Vec<char> = Vec::new();
                m.push('[');
                push_str(&mut m, squeezed.as_str());
                m.push(']');
                let ghost before = out@.map_values(|e: (String, String)| (e.0@, e.1@));
                assert(m@ =~= seq!['['] + squeezed@ + seq![']']);
                let pc = f.path.clone();
                let ms = string_from_chars(&m);
                out.push((pc, ms));
                assert(out@.map_values(|e: (String, String)| (e.0@, e.1@)) =~= before.push(
                    (f.path@, seq!['['] + compressed(t@) + seq![']']),
                ));
            },
            None => {},
        }
        i = i + 1;
    }
    assert(files@.take(i as int) =~= files@);
    out
}

/// Renders the context of the tree `nodes` and the files `file_paths` (exported in lexicographic
/// order): a directory structure, then one block per readable file, or in compressed mode
/// the tree alone with each file's compressed content inlined; then the always-apply text.
pub fn render_context(
    nodes: &Vec<FileNode>,
    file_paths: &[String],
    files: &[FileText],
    metadata_cache: &FileCache,
    opts: &ExportOptions,
) -> (r: String)
    ensures
        exists|sp: Seq<Seq<char>>|
            paths_sorted(sp) && sp.to_multiset() == strs(file_paths@).to_multiset() && #[trigger] context_text(
                nodes@,
                sp,
                text_views(files@),
                metadata_cache@,
                opts.super_compressed,
                opts_view(*opts),
                always_view(*opts),
            ) == r@,
{
    let ghost o = opts_view(*opts);
    let mut out: Vec<char> = Vec::new();
    push_str(&mut out, "Directory structure:\n");
    let empty: Vec<char> = Vec::new();
    let sorted = sort_paths(file_paths);
    if opts.super_compressed {
        let table = build_mark_table(files, metadata_cache, opts);
        let marks = FileMarks { inline: true, table, excluded_extensions: crate::models::copy_strings(&opts.exclude_extensions) };
        assert(marks_view(marks) == (true, mark_table(text_views(files@), metadata_cache@, o), o.3));
        format_tree_helper(nodes, &empty, &marks, &mut out);
    } else {
        let marks = FileMarks { inline: false, table: Vec::new(), excluded_extensions: crate::models::copy_strings(&opts.exclude_extensions) };
        assert(marks_view(marks) =~= (false, Seq::<(Seq<char>, Seq<char>)>::empty(), o.3));
        format_tree_helper(nodes, &empty, &marks, &mut out);
        push_str(&mut out, "\n\n");
        push_blocks(&sorted, files, metadata_cache, opts, &mut out);
    }
    let ghost body = out@;
    match &opts.always_apply_text {
        Some(t) => {
            let tc = chars_of(t.as_str());
            if !blank(&tc) {
                push_str(&mut out, "\n");
                push_str(&mut out, "================================================\n");
                push_str(&mut out, "**ALWAYS APPLY**\n");
                push_str(&mut out, "================================================\n");
                push_str(&mut out, t.as_str());
                out.push('\n');
            }
        },
        None => {},
    }
    let r = string_from_chars(&out);
    proof {
        let always = always_view(*opts);
        assert(r@ =~= context_text(nodes@, strs(sorted@), text_views(files@), metadata_cache@, opts.super_compressed, o, always));
    }
    r
}

/// `s` is the context of the files `ps`: rendered with the cached tree (put in tree order) when
/// the options ask for the full tree, else with the minimal tree of `ps`, and with `ps` in order.
pub open spec fn is_context_for(
    s: Seq<char>,
    ps: Seq<Seq<char>>,
    tree: Option<FileNode>,
    files: Seq<FileText>,
    c: Seq<(Seq<char>, MetaView)>,
    opts: ExportOptions,
) -> bool {
    exists|nodes: Seq<FileNode>, sp: Seq<Seq<char>>|
        (if opts.use_full_tree {
            match tree {
                Some(root) => match root.children {
                    Some(ch) => ordered_from(nodes, ch@),
                    None => nodes.len() == 0,
                },
                None => false,
            }
        } else {
            tree_matches(nodes, minimal_entries(ps), Seq::empty(), max_path_len(minimal_entries(ps)))
        }) && paths_sorted(sp) && sp.to_multiset() == ps.to_multiset() && #[trigger] context_text(
            nodes,
            sp,
            text_views(files),
            c,
            opts.super_compressed,
            opts_view(opts),
            always_view(opts),
        ) == s
}

/// Generates the export text for `file_paths`, with the cached project tree or the minimal
/// tree of those files. Fails only when the full tree is asked for and none is cached.
pub fn generate_context_from_files(
    file_paths: &[String],
    full_project_tree: &Option<FileNode>,
    files: &[FileText],
    metadata_cache: &FileCache,
    opts: &ExportOptions,
) -> (r: Result<String, String>)
    ensures
        r is Err <==> (opts.use_full_tree && full_project_tree is None),
        r matches Ok(s) ==> is_context_for(s@, strs(file_paths@), *full_project_tree, files@, metadata_cache@, *opts),
{
    if opts.use_full_tree {
        match full_project_tree {
            Some(root) => match &root.children {
                Some(ch) => {
                    let nodes = order_tree(ch);
                    Ok(render_context(&nodes, file_paths, files, metadata_cache, opts))
                },
                None => {
                    let none: Vec<FileNode> = Vec::new();
                    Ok(render_context(&none, file_paths, files, metadata_cache, opts))
                },
            },
            None => Err(string_from_chars(&chars_of("Không tìm thấy cây thư mục đầy đủ trong cache."))),
        }
    } else {
        let nodes = minimal_tree(file_paths);
        Ok(render_context(&nodes, file_paths, files, metadata_cache, opts))
    }
}

} // verus!
