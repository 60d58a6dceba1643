//! Per-file content transforms for exported context: exclusion splicing, comment and
//! debug-log stripping, whitespace compression and line numbering.
use vstd::prelude::*;
use crate::lines::{
    blank, decimal, flatten_breaks, flatten_breaks_exec, is_blank, lines_of, push_decimal,
    split_lines, trim_chars, trimmed,
};
use crate::outside::{regex_accepts, regex_replace_all, regex_replaced, string_from_chars};
use crate::text::{chars_of, push_chars, text_eq};

verus! {

/// Whether byte offset `i` lies in one of the half-open `ranges`.
pub open spec fn excluded_at(ranges: Seq<(usize, usize)>, i: int) -> bool {
    exists|k: int| 0 <= k < ranges.len() && ranges[k].0 <= i < #[trigger] ranges[k].1
}

/// The bytes of `b` outside every range, in order.
pub open spec fn spliced(b: Seq<u8>, ranges: Seq<(usize, usize)>) -> Seq<u8>
    decreases b.len(),
{
    if b.len() == 0 {
        Seq::empty()
    } else if excluded_at(ranges, b.len() - 1) {
        spliced(b.drop_last(), ranges)
    } else {
        spliced(b.drop_last(), ranges).push(b.last())
    }
}

fn in_ranges(ranges: &[(usize, usize)], i: usize) -> (r: bool)
    ensures
        r == excluded_at(ranges@, i as int),
{
    let mut k: usize = 0;
    while k < ranges.len()
        invariant
            k <= ranges@.len(),
            forall|j: int| 0 <= j < k ==> !(ranges@[j].0 <= i < #[trigger] ranges@[j].1),
        decreases ranges.len() - k,
    {
        if ranges[k].0 <= i && i < ranges[k].1 {
            return true;
        }
        k = k + 1;
    }
    false
}

/// Removes the bytes that the exclusion ranges mark (half-open byte offsets).
pub fn splice_excluded(content: &[u8], ranges: &[(usize, usize)]) -> (r: Vec<u8>)
    ensures
        r@ == spliced(content@, ranges@),
{
    let mut out: Vec<u8> = Vec::new();
    let mut i: usize = 0;
    while i < content.len()
        invariant
            i <= content@.len(),
            out@ == spliced(content@.take(i as int), ranges@),
        decreases content.len() - i,
    {
        assert(content@.take(i + 1).drop_last() =~= content@.take(i as int));
        if !in_ranges(ranges, i) {
            out.push(content[i]);
        }
        i = i + 1;
    }
    assert(content@.take(i as int) =~= content@);
    out
}

/// Each line prefixed with its 1-based number, a colon and a space, and ended by `\n`.
pub open spec fn numbered(ls: Seq<Seq<char>>) -> Seq<char>
    decreases ls.len(),
{
    if ls.len() == 0 {
        Seq::empty()
    } else {
        numbered(ls.drop_last()) + decimal(ls.len()) + seq![':', ' '] + ls.last() + seq!['\n']
    }
}

/// The content with 1-based line numbers.
pub fn number_lines(content: &str) -> (r: Vec<char>)
    ensures
        r@ == numbered(lines_of(content@)),
{
    let cs = chars_of(content);
    let ls = split_lines(&cs);
    let ghost lv = ls@.map_values(|l: Vec<char>| l@);
    let mut out: Vec<char> = Vec::new();
    let mut i: usize = 0;
    while i < ls.len()
        invariant
            i <= ls@.len(),
            lv == ls@.map_values(|l: Vec<char>| l@),
            out@ == numbered(lv.take(i as int)),
        decreases ls.len() - i,
    {
        assert(lv.take(i + 1).drop_last() =~= lv.take(i as int));
        push_decimal(&mut out, i + 1);
        out.push(':');
        out.push(' ');
        push_chars(&mut out, &ls[i]);
        out.push('\n');
        assert(out@ =~= numbered(lv.take(i + 1)));
        i = i + 1;
    }
    assert(lv.take(i as int) =~= lv);
    out
}

/// Lines joined with `\n` between them.
pub open spec fn joined(ls: Seq<Seq<char>>) -> Seq<char>
    decreases ls.len(),
{
    if ls.len() == 0 {
        Seq::empty()
    } else if ls.len() == 1 {
        ls[0]
    } else {
        joined(ls.drop_last()) + seq!['\n'] + ls.last()
    }
}

/// The 1-based line range `start..=end` of `s` (missing bounds open), joined with `\n`;
/// with neither bound, `s` itself.
pub open spec fn line_range(s: Seq<char>, start: Option<usize>, end: Option<usize>) -> Seq<char> {
    let ls = lines_of(s);
    let a: int = match start {
        Some(n) => if n == 0 { 0 } else { n - 1 },
        None => 0,
    };
    let b: int = match end {
        Some(n) => if n < ls.len() { n as int } else { ls.len() as int },
        None => ls.len() as int,
    };
    if start is None && end is None {
        s
    } else if a >= b {
        Seq::empty()
    } else {
        joined(ls.subrange(a, b))
    }
}

/// Selects a range of lines of a file's content.
pub fn select_lines(content: &str, start_line: Option<usize>, end_line: Option<usize>) -> (r: String)
    ensures
        r@ == line_range(content@, start_line, end_line),
{
    if start_line.is_none() && end_line.is_none() {
        return content.to_owned();
    }
    let cs = chars_of(content);
    let ls = split_lines(&cs);
    let ghost lv = ls@.map_values(|l: Vec<char>| l@);
    let total = ls.len();
    let a: usize = match start_line {
        Some(n) => if n == 0 { 0 } else { n - 1 },
        None => 0,
    };
    let b: usize = match end_line {
        Some(n) => if n < total { n } else { total },
        None => total,
    };
    if a >= b {
        return string_from_chars(&Vec::new());
    }
    let mut out: Vec<char> = Vec::new();
    let mut i: usize = a;
    while i < b
        invariant
            a <= i <= b,
            b <= ls@.len(),
            a < b,
            lv == ls@.map_values(|l: Vec<char>| l@),
            out@ == joined(lv.subrange(a as int, i as int)),
        decreases b - i,
    {
        if i > a {
            out.push('\n');
        }
        push_chars(&mut out, &ls[i]);
        assert(lv.subrange(a as int, i + 1).drop_last() =~= lv.subrange(a as int, i as int));
        if i == a {
            assert(out@ =~= joined(lv.subrange(a as int, i + 1)));
        }
        i = i + 1;
    }
    string_from_chars(&out)
}

/// The lines of `s` that are not blank, joined with `\n`.
pub open spec fn without_blank_lines(s: Seq<char>) -> Seq<char> {
    joined(lines_of(s).filter(|l: Seq<char>| !is_blank(l)))
}

pub fn drop_blank_lines(s: &str) -> (r: Vec<char>)
    ensures
        r@ == without_blank_lines(s@),
{
    let cs = chars_of(s);
    let ls = split_lines(&cs);
    let ghost lv = ls@.map_values(|l: Vec<char>| l@);
    let ghost pred = |l: Seq<char>| !is_blank(l);
    let mut out: Vec<char> = Vec::new();
    let mut count: usize = 0;
    let mut i: usize = 0;
    while i < ls.len()
        invariant
            i <= ls@.len(),
            lv == ls@.map_values(|l: Vec<char>| l@),
            pred == (|l: Seq<char>| !is_blank(l)),
            count == lv.take(i as int).filter(pred).len(),
            out@ == joined(lv.take(i as int).filter(pred)),
        decreases ls.len() - i,
    {
        proof {
            assert(lv.take(i + 1) =~= lv.take(i as int).push(lv[i as int]));
            lv.take(i as int).lemma_filter_push(lv[i as int], pred);
        }
        if !blank(&ls[i]) {
            if count > 0 {
                out.push('\n');
            }
            push_chars(&mut out, &ls[i]);
            let ghost f = lv.take(i as int).filter(pred);
            assert(f.push(lv[i as int]).drop_last() =~= f);
            if count == 0 {
                assert(out@ =~= joined(f.push(lv[i as int])));
            }
            count = count + 1;
        }
        i = i + 1;
    }
    assert(lv.take(i as int) =~= lv);
    out
}

/// The extension of the last component of a path: what follows its last `.`, unless that
/// `.` starts the name; empty when there is none.
pub open spec fn extension_of(p: Seq<char>) -> Seq<char> {
    let name_start = last_slash_end(p, p.len() as int);
    let d = last_dot(p, p.len() as int, name_start);
    if d > name_start {
        p.subrange(d + 1, p.len() as int)
    } else {
        Seq::empty()
    }
}

/// Index just after the last `/` before `j`, or 0.
pub open spec fn last_slash_end(p: Seq<char>, j: int) -> int
    decreases j,
{
    if j <= 0 {
        0
    } else if p[j - 1] == '/' {
        j
    } else {
        last_slash_end(p, j - 1)
    }
}

/// Index of the last `.` in `p[lo..j)`, or `lo - 1`.
pub open spec fn last_dot(p: Seq<char>, j: int, lo: int) -> int
    decreases j - lo,
{
    if j <= lo {
        lo - 1
    } else if p[j - 1] == '.' {
        j - 1
    } else {
        last_dot(p, j - 1, lo)
    }
}

/// The extension of a path's file name.
pub fn extension(p: &str) -> (r: Vec<char>)
    ensures
        r@ == extension_of(p@),
{
    let cs = chars_of(p);
    let mut a: usize = cs.len();
    while a > 0 && cs[a - 1] != '/'
        invariant
            a <= cs.len(),
            cs@ == p@,
            last_slash_end(cs@, cs.len() as int) == last_slash_end(cs@, a as int),
        decreases a,
    {
        a = a - 1;
    }
    let mut d: usize = cs.len();
    while d > a && cs[d - 1] != '.'
        invariant
            a <= d <= cs.len(),
            cs@ == p@,
            last_dot(cs@, cs.len() as int, a as int) == last_dot(cs@, d as int, a as int),
        decreases d,
    {
        d = d - 1;
    }
    let mut out: Vec<char> = Vec::new();
    if d > a && d - a > 1 {
        let mut k: usize = d;
        while k < cs.len()
            invariant
                d <= k <= cs.len(),
                out@ == cs@.subrange(d as int, k as int),
            decreases cs.len() - k,
        {
            out.push(cs[k]);
            assert(cs@.subrange(d as int, k + 1) =~= cs@.subrange(d as int, k as int).push(cs[k as int]));
            k = k + 1;
        }
    }
    proof {
        if d > a && d - a > 1 {
            assert(last_dot(cs@, d as int, a as int) == d - 1);
        } else if d == a + 1 {
            assert(last_dot(cs@, d as int, a as int) == a);
        } else {
            assert(out@ =~= Seq::<char>::empty());
        }
    }
    out
}

} // verus!

verus! {

pub const C_LINE_COMMENT: &'static str = "//.*";
pub const C_BLOCK_COMMENT: &'static str = "(?s)/\\*.*?\\*/";
pub const HASH_COMMENT: &'static str = "#.*";
pub const MARKUP_COMMENT: &'static str = "(?s)<!--.*?-->";
pub const DASH_COMMENT: &'static str = "--.*";
pub const APOSTROPHE_COMMENT: &'static str = "'.*";
pub const SEMICOLON_COMMENT: &'static str = ";.*";
pub const PERCENT_COMMENT: &'static str = "%.*";
pub const DEBUG_LOG_PATTERN: &'static str = "(?im)^\\s*(?:console\\.(?:log|warn|error|info|debug|trace|assert|dir|dirxml|table|time(?:End|Log)?|count(?:Reset)?|group(?:End|Collapsed)?|clear|profile(?:End)?)\\s*\\(.*\\);?|println!\\s*\\(.*\\);?|dbg!\\s*\\(.*\\);?|print\\s*\\(.*\\)|(?:var_dump|print_r)\\s*\\(.*\\);?|System\\.out\\.println\\s*\\(.*\\);?|Console\\.WriteLine\\s*\\(.*\\);?|fmt\\.Println\\s*\\(.*\\)|(?:puts|p|pp)\\s+.*)\\s*\\r?\\n?";
pub const WHITESPACE_RUN: &'static str = "\\s+";

/// The comment syntax of a file kind, chosen by extension.
#[derive(Clone, Copy, Debug, PartialEq, Eq, Structural)]
pub enum CommentStyle {
    /// C-family comments.
    CStyle,
    /// hash comments.
    Hash,
    /// HTML/XML comments.
    Markup,
    /// SQL/Lua comments.
    DoubleDash,
    /// Lisp comments.
    Semicolon,
    /// Erlang comments.
    Percent,
    /// Visual Basic comments.
    Apostrophe,
    /// PHP comments.
    Php,
    /// single-file component comments.
    Component,
    /// No known comment syntax: content passes through.
    Plain,
}

/// The comment style of a file extension.
pub open spec fn style_of(ext: Seq<char>) -> CommentStyle {
    if ext == "js"@ || ext == "jsx"@ || ext == "ts"@ || ext == "tsx"@ || ext == "rs"@ || ext == "go"@ || ext == "c"@ || ext == "cpp"@ || ext == "h"@ || ext == "java"@ || ext == "cs"@ || ext == "swift"@ || ext == "kt"@ || ext == "css"@ || ext == "scss"@ || ext == "less"@ || ext == "jsonc"@ || ext == "glsl"@ || ext == "dart"@ || ext == "gd"@ {
        CommentStyle::CStyle
    } else if ext == "py"@ || ext == "rb"@ || ext == "sh"@ || ext == "yml"@ || ext == "yaml"@ || ext == "toml"@ || ext == "dockerfile"@ || ext == "gitignore"@ || ext == "r"@ || ext == "pl"@ || ext == "pm"@ || ext == "ps1"@ || ext == "el"@ {
        CommentStyle::Hash
    } else if ext == "html"@ || ext == "xml"@ || ext == "svg"@ || ext == "md"@ {
        CommentStyle::Markup
    } else if ext == "sql"@ || ext == "lua"@ || ext == "hs"@ || ext == "ada"@ {
        CommentStyle::DoubleDash
    } else if ext == "lisp"@ || ext == "cl"@ || ext == "scm"@ {
        CommentStyle::Semicolon
    } else if ext == "erl"@ || ext == "hrl"@ {
        CommentStyle::Percent
    } else if ext == "vb"@ || ext == "vbs"@ {
        CommentStyle::Apostrophe
    } else if ext == "php"@ {
        CommentStyle::Php
    } else if ext == "vue"@ || ext == "astro"@ {
        CommentStyle::Component
    } else {
        CommentStyle::Plain
    }
}

/// The comment style of a file extension.
pub fn comment_style(ext: &str) -> (r: CommentStyle)
    ensures
        r == style_of(ext@),
{
    if text_eq(ext, "js") || text_eq(ext, "jsx") || text_eq(ext, "ts") || text_eq(ext, "tsx") || text_eq(ext, "rs") || text_eq(ext, "go") || text_eq(ext, "c") || text_eq(ext, "cpp") || text_eq(ext, "h") || text_eq(ext, "java") || text_eq(ext, "cs") || text_eq(ext, "swift") || text_eq(ext, "kt") || text_eq(ext, "css") || text_eq(ext, "scss") || text_eq(ext, "less") || text_eq(ext, "jsonc") || text_eq(ext, "glsl") || text_eq(ext, "dart") || text_eq(ext, "gd") {
        CommentStyle::CStyle
    } else if text_eq(ext, "py") || text_eq(ext, "rb") || text_eq(ext, "sh") || text_eq(ext, "yml") || text_eq(ext, "yaml") || text_eq(ext, "toml") || text_eq(ext, "dockerfile") || text_eq(ext, "gitignore") || text_eq(ext, "r") || text_eq(ext, "pl") || text_eq(ext, "pm") || text_eq(ext, "ps1") || text_eq(ext, "el") {
        CommentStyle::Hash
    } else if text_eq(ext, "html") || text_eq(ext, "xml") || text_eq(ext, "svg") || text_eq(ext, "md") {
        CommentStyle::Markup
    } else if text_eq(ext, "sql") || text_eq(ext, "lua") || text_eq(ext, "hs") || text_eq(ext, "ada") {
        CommentStyle::DoubleDash
    } else if text_eq(ext, "lisp") || text_eq(ext, "cl") || text_eq(ext, "scm") {
        CommentStyle::Semicolon
    } else if text_eq(ext, "erl") || text_eq(ext, "hrl") {
        CommentStyle::Percent
    } else if text_eq(ext, "vb") || text_eq(ext, "vbs") {
        CommentStyle::Apostrophe
    } else if text_eq(ext, "php") {
        CommentStyle::Php
    } else if text_eq(ext, "vue") || text_eq(ext, "astro") {
        CommentStyle::Component
    } else {
        CommentStyle::Plain
    }
}

/// The comment patterns of a style, in the order they are applied.
pub open spec fn style_patterns(s: CommentStyle) -> Seq<Seq<char>> {
    match s {
        CommentStyle::CStyle => seq![C_LINE_COMMENT@, C_BLOCK_COMMENT@],
        CommentStyle::Hash => seq![HASH_COMMENT@],
        CommentStyle::Markup => seq![MARKUP_COMMENT@],
        CommentStyle::DoubleDash => seq![DASH_COMMENT@],
        CommentStyle::Semicolon => seq![SEMICOLON_COMMENT@],
        CommentStyle::Percent => seq![PERCENT_COMMENT@],
        CommentStyle::Apostrophe => seq![APOSTROPHE_COMMENT@],
        CommentStyle::Php => seq![C_BLOCK_COMMENT@, C_LINE_COMMENT@, HASH_COMMENT@],
        CommentStyle::Component => seq![MARKUP_COMMENT@, C_BLOCK_COMMENT@, C_LINE_COMMENT@],
        CommentStyle::Plain => seq![],
    }
}

/// The comment patterns of a style, in the order they are applied.
pub fn patterns_for(s: CommentStyle) -> (r: Vec<&'static str>)
    ensures
        r@.map_values(|p: &str| p@) == style_patterns(s),
{
    let mut v: Vec<&'static str> = Vec::new();
    match s {
        CommentStyle::CStyle => {
            v.push(C_LINE_COMMENT);
            v.push(C_BLOCK_COMMENT);
        },
        CommentStyle::Hash => {
            v.push(HASH_COMMENT);
        },
        CommentStyle::Markup => {
            v.push(MARKUP_COMMENT);
        },
        CommentStyle::DoubleDash => {
            v.push(DASH_COMMENT);
        },
        CommentStyle::Semicolon => {
            v.push(SEMICOLON_COMMENT);
        },
        CommentStyle::Percent => {
            v.push(PERCENT_COMMENT);
        },
        CommentStyle::Apostrophe => {
            v.push(APOSTROPHE_COMMENT);
        },
        CommentStyle::Php => {
            v.push(C_BLOCK_COMMENT);
            v.push(C_LINE_COMMENT);
            v.push(HASH_COMMENT);
        },
        CommentStyle::Component => {
            v.push(MARKUP_COMMENT);
            v.push(C_BLOCK_COMMENT);
            v.push(C_LINE_COMMENT);
        },
        CommentStyle::Plain => {
        },
    }
    assert(v@.map_values(|p: &str| p@) =~= style_patterns(s));
    v
}

} // verus!

verus! {

/// `text` after deleting every match of each pattern in turn (a pattern that does not compile
/// leaves the text as it is).
pub open spec fn apply_patterns(ps: Seq<Seq<char>>, text: Seq<char>) -> Seq<char>
    decreases ps.len(),
{
    if ps.len() == 0 {
        text
    } else {
        let t = apply_patterns(ps.drop_last(), text);
        if regex_accepts(ps.last()) {
            regex_replaced(ps.last(), t, ""@)
        } else {
            t
        }
    }
}

/// What comment stripping makes of `content` in a file at `path`: for a known comment syntax,
/// its comments removed, then blank lines dropped; unknown extensions pass through unchanged.
pub open spec fn comments_removed(content: Seq<char>, path: Seq<char>) -> Seq<char> {
    if style_of(extension_of(path)) == CommentStyle::Plain {
        content
    } else {
        without_blank_lines(apply_patterns(style_patterns(style_of(extension_of(path))), content))
    }
}

/// Removes the comments of the file's language (chosen by extension) and the blank lines
/// left behind; content of an unknown extension is returned unchanged.
pub fn remove_comments_from_content(content: &str, file_rel_path: &str) -> (r: String)
    ensures
        r@ == comments_removed(content@, file_rel_path@),
{
    let ext_chars = extension(file_rel_path);
    let ext = string_from_chars(&ext_chars);
    let style = comment_style(ext.as_str());
    if let CommentStyle::Plain = style {
        return content.to_owned();
    }
    let ps = patterns_for(style);
    let ghost pv = ps@.map_values(|p: &str| p@);
    let mut text = content.to_owned();
    let mut i: usize = 0;
    while i < ps.len()
        invariant
            i <= ps@.len(),
            pv == ps@.map_values(|p: &str| p@),
            text@ == apply_patterns(pv.take(i as int), content@),
        decreases ps.len() - i,
    {
        assert(pv.take(i + 1).drop_last() =~= pv.take(i as int));
        match regex_replace_all(ps[i], text.as_str(), "") {
            Some(t) => {
                text = t;
            },
            None => {},
        }
        i = i + 1;
    }
    assert(pv.take(i as int) =~= pv);
    let kept = drop_blank_lines(text.as_str());
    string_from_chars(&kept)
}

/// `content` without the recognised debug-logging statements.
pub open spec fn debug_removed(content: Seq<char>) -> Seq<char> {
    if regex_accepts(DEBUG_LOG_PATTERN@) {
        regex_replaced(DEBUG_LOG_PATTERN@, content, ""@)
    } else {
        content
    }
}

/// Removes the recognised debug-logging statements (with the line break that ends them).
pub fn remove_debug_logs_from_content(content: &str) -> (r: String)
    ensures
        r@ == debug_removed(content@),
{
    match regex_replace_all(DEBUG_LOG_PATTERN, content, "") {
        Some(t) => t,
        None => content.to_owned(),
    }
}

/// What compression makes of `content`: line breaks and tabs become spaces, every run of
/// whitespace one space, and the ends are trimmed.
pub open spec fn compressed(content: Seq<char>) -> Seq<char> {
    let f = flatten_breaks(content);
    trimmed(
        if regex_accepts(WHITESPACE_RUN@) {
            regex_replaced(WHITESPACE_RUN@, f, " "@)
        } else {
            f
        },
    )
}

/// Collapses a file's content to one line for inlining into the tree.
pub fn compress_content_for_tree(content: &str) -> (r: String)
    ensures
        r@ == compressed(content@),
{
    let flat = string_from_chars(&flatten_breaks_exec(content));
    let collapsed = match regex_replace_all(WHITESPACE_RUN, flat.as_str(), " ") {
        Some(t) => t,
        None => flat,
    };
    let cs = chars_of(collapsed.as_str());
    string_from_chars(&trim_chars(&cs))
}

} // verus!
