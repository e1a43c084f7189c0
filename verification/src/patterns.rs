//! Regular expressions, by the crate regex.
use vstd::prelude::*;

verus! {

/// Whether `pattern` is a regular expression that compiles.
pub uninterp spec fn regex_compiles(pattern: Seq<char>) -> bool;

/// Whether the regular expression that `pattern` compiles to has a match
/// somewhere in `haystack`.
pub uninterp spec fn regex_is_match(pattern: Seq<char>, haystack: Seq<char>) -> bool;

/// What a search for a pattern says of a text: whether the pattern matches
/// somewhere in it, and nothing where the pattern does not compile.
pub open spec fn answer(pattern: Seq<char>, haystack: Seq<char>) -> Option<bool> {
    if regex_compiles(pattern) {
        Some(regex_is_match(pattern, haystack))
    } else {
        None
    }
}

/// `Regex::new` and `Regex::is_match` of the crate regex: compiles the
/// pattern and looks for a match anywhere in the haystack. Both are
/// functions of their arguments alone; the contract gives them the names
/// `regex_compiles` and `regex_is_match` and claims nothing more of them.
#[verifier::external_body]
pub(crate) fn regex_search(pattern: &str, haystack: &str) -> (r: Option<bool>)
    ensures
        r == if regex_compiles(pattern@) {
            Some(regex_is_match(pattern@, haystack@))
        } else {
            None
        },
{
    match regex::Regex::new(pattern) {
        Ok(compiled) => Some(compiled.is_match(haystack)),
        Err(_) => None,
    }
}

/// Whether the pattern matches somewhere in the text; nothing where the
/// pattern does not compile.
pub fn search(pattern: &str, haystack: &str) -> (r: Option<bool>)
    ensures
        r == answer(pattern@, haystack@),
{
    regex_search(pattern, haystack)
}

} // verus!
