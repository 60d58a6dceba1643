//! Calls into std and outside crates whose results the library relies on.
use vstd::prelude::*;

verus! {

/// Whether `regex::Regex::new` accepts `pattern`.
pub uninterp spec fn regex_accepts(pattern: Seq<char>) -> bool;

/// What `regex::Regex::replace_all` returns for a compiled `pattern`, `text` and a replacement.
pub uninterp spec fn regex_replaced(pattern: Seq<char>, text: Seq<char>, replacement: Seq<char>) -> Seq<char>;

/// For each match of `regex::Regex::captures_iter` over `text`, what the capture group
/// `group` matched, if it took part in the match.
pub uninterp spec fn regex_group_matches(pattern: Seq<char>, group: Seq<char>, text: Seq<char>) -> Seq<Option<Seq<char>>>;

/// What `path_clean::clean` makes of a path.
pub uninterp spec fn cleaned_path(p: Seq<char>) -> Seq<char>;

/// The number of cl100k tokens that `tiktoken_rs` encodes `text` into, where encoding succeeds.
pub uninterp spec fn cl100k_token_count(text: Seq<char>) -> Option<usize>;

/// Whether `char::is_alphanumeric` holds of `c` (Unicode Alphabetic or Numeric).
pub uninterp spec fn alphanumeric(c: char) -> bool;

/// What `String::from_utf8_lossy` makes of some bytes.
pub uninterp spec fn lossy_utf8(b: Seq<u8>) -> Seq<char>;

/// Relies on `regex::Regex::new`, which accepts or refuses the pattern, and
/// `Regex::replace_all`, which replaces every non-overlapping match.
#[verifier::external_body]
pub(crate) fn regex_replace_all(pattern: &str, text: &str, replacement: &str) -> (r: Option<String>)
    ensures
        r is Some <==> regex_accepts(pattern@),
        r matches Some(s) ==> s@ == regex_replaced(pattern@, text@, replacement@),
{
    regex::Regex::new(pattern).ok().map(|re| re.replace_all(text, replacement).into_owned())
}

/// Relies on `regex::Regex::new` and `Regex::captures_iter` with `Captures::name`: the text
/// of a named group in each successive match.
#[verifier::external_body]
pub(crate) fn regex_named_group(pattern: &str, group: &str, text: &str) -> (r: Option<Vec<Option<String>>>)
    ensures
        r is Some <==> regex_accepts(pattern@),
        r matches Some(v) ==> v@.len() == regex_group_matches(pattern@, group@, text@).len()
            && forall|i: int| 0 <= i < v@.len() ==> match #[trigger] v@[i] {
                Some(s) => regex_group_matches(pattern@, group@, text@)[i] == Some(s@),
                None => regex_group_matches(pattern@, group@, text@)[i] is None,
            },
{
    regex::Regex::new(pattern).ok().map(|re| {
        re.captures_iter(text).map(|c| c.name(group).map(|m| m.as_str().to_string())).collect()
    })
}

/// Relies on `path_clean::clean`: lexical normalisation of `.`, `..` and repeated separators.
#[verifier::external_body]
pub(crate) fn clean_path(p: &str) -> (r: String)
    ensures
        r@ == cleaned_path(p@),
{
    path_clean::clean(p).to_string_lossy().into_owned()
}

/// Relies on `tiktoken_rs`'s shared cl100k tokenizer and `CoreBPE::encode` with every special
/// token allowed; an encoding error gives `None`.
#[verifier::external_body]
pub(crate) fn count_tokens(text: &str) -> (r: Option<usize>)
    ensures
        r == cl100k_token_count(text@),
{
    let bpe = tiktoken_rs::cl100k_base_singleton();
    bpe.encode(text, &bpe.special_tokens()).ok().map(|(tokens, _)| tokens.len())
}

/// Relies on `char::is_alphanumeric`.
#[verifier::external_body]
pub(crate) fn is_alphanumeric(c: char) -> (r: bool)
    ensures
        r == alphanumeric(c),
{
    c.is_alphanumeric()
}

/// Relies on `String::from_utf8_lossy`: valid UTF-8 decodes unchanged.
#[verifier::external_body]
pub(crate) fn decode_lossy(b: &[u8]) -> (r: String)
    ensures
        r@ == lossy_utf8(b@),
        vstd::utf8::valid_utf8(b@) ==> r@ == vstd::utf8::decode_utf8(b@),
{
    String::from_utf8_lossy(b).into_owned()
}

/// Relies on `String::from_iter` over `char`: the string holds exactly the given characters.
#[verifier::external_body]
pub(crate) fn string_from_chars(v: &Vec<char>) -> (r: String)
    ensures
        r@ == v@,
{
    v.iter().collect::<String>()
}

} // verus!
