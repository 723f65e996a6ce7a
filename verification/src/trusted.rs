//! The calls that leave verified code. Each contract in this file is taken on
//! trust from the documentation of the function that it describes.

use vstd::prelude::*;

verus! {

/// `String::push` appends the character to the end of the string.
pub assume_specification[ String::push ](s: &mut String, c: char)
    ensures
        final(s)@ == old(s)@.push(c),
;

/// The error with which `regex::Regex::new` turns a pattern down.
#[verifier::external_type_specification]
#[verifier::external_body]
pub struct ExRegexError(regex::Error);

/// The answer of `regex::Regex::is_match` for the regular expression written
/// as `pattern` and the haystack `text`: whether the expression matches
/// somewhere in it.
pub uninterp spec fn regex_is_match(pattern: Seq<char>, text: Seq<char>) -> bool;

/// Whether `regex::Regex::new` accepts the regular expression written as
/// `pattern`: whether it is well formed and, compiled, within the default
/// size limit.
pub uninterp spec fn regex_compiles(pattern: Seq<char>) -> bool;

/// Compiles `pattern` with `regex::Regex::new` and asks `Regex::is_match`
/// whether it matches in `text`. Trusted: whether the pattern compiles depends
/// on the pattern alone, and where it does, the answer depends on the pattern
/// and the text alone. Nothing is claimed of which patterns compile.
#[verifier::external_body]
pub(crate) fn pattern_is_match(pattern: &str, text: &str) -> (r: Result<bool, regex::Error>)
    ensures
        r is Ok <==> regex_compiles(pattern@),
        r matches Ok(b) ==> b == regex_is_match(pattern@, text@),
{
    match regex::Regex::new(pattern) {
        Ok(re) => Ok(re.is_match(text)),
        Err(e) => Err(e),
    }
}

/// What `{:?}` writes for a string: the string between double quotes, with
/// escapes for the characters that cannot stand for themselves there.
pub uninterp spec fn debug_quoted(s: Seq<char>) -> Seq<char>;

/// Formats `s` with `{:?}`, that is with `<str as core::fmt::Debug>::fmt`.
/// Trusted: the text written depends on `s` alone.
#[verifier::external_body]
pub(crate) fn debug_quote(s: &str) -> (r: String)
    ensures
        r@ == debug_quoted(s@),
{
    format!("{:?}", s)
}

} // verus!
