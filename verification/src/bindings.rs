//! Calls into std and the `regex` crate whose behaviour the library takes on
//! trust. Each item states what it claims of the function it calls.

use vstd::prelude::*;

use crate::text::{ascii_lower_text, is_ascii_alnum, is_ascii_text};

verus! {

/// What `str::to_lowercase` returns for a string that is not all ASCII: its
/// Unicode lowercase mapping, which depends on the string alone.
pub uninterp spec fn lowercase(s: Seq<char>) -> Seq<char>;

/// Whether `char::is_alphanumeric` holds of a non-ASCII character (Unicode
/// `Alphabetic` or `Numeric`), which depends on the character alone.
pub uninterp spec fn alphanumeric(c: char) -> bool;

/// Whether `regex::Regex::new` accepts a pattern (it is syntactically valid and
/// fits the default size limit); this depends on the pattern alone.
pub uninterp spec fn regex_compiles(pattern: Seq<char>) -> bool;

/// What `regex::Regex::is_match` answers for the regex compiled from `pattern`
/// on `haystack`: whether the pattern matches anywhere in it.
pub uninterp spec fn regex_is_match(pattern: Seq<char>, haystack: Seq<char>) -> bool;

/// `String::push`: appends one character.
#[verifier::external_body]
pub(crate) fn push_char(s: &mut String, c: char)
    ensures
        final(s)@ == old(s)@.push(c),
{
    s.push(c)
}

/// `str::to_lowercase`. On an all-ASCII string it maps `'A'..='Z'` to
/// `'a'..='z'` and leaves every other character as it is: Unicode's lowercase
/// mapping of the ASCII range, which std's `str::to_ascii_lowercase`
/// documentation names as the part that `to_lowercase` shares with it, and which
/// std computes with `u8::to_ascii_lowercase` for ASCII text. Any other result
/// is named by `lowercase`; nothing more is claimed of the Unicode case mapping.
#[verifier::external_body]
pub(crate) fn to_lowercase(s: &str) -> (r: String)
    ensures
        is_ascii_text(s@) ==> r@ == ascii_lower_text(s@),
        !is_ascii_text(s@) ==> r@ == lowercase(s@),
{
    s.to_lowercase()
}

/// `char::is_alphanumeric`: `is_alphabetic() || is_numeric()`. Of the ASCII
/// characters exactly the letters `'a'..='z'`, `'A'..='Z'` and the digits
/// `'0'..='9'` are alphabetic or numeric (the Unicode `Alphabetic` and `N`
/// properties of the ASCII range, which std tests as `is_ascii_alphanumeric`
/// for ASCII characters). The answer for any other character is named by
/// `alphanumeric`.
#[verifier::external_body]
pub(crate) fn is_alphanumeric(c: char) -> (r: bool)
    ensures
        (c as u32) < 128 ==> r == is_ascii_alnum(c),
        (c as u32) >= 128 ==> r == alphanumeric(c),
{
    c.is_alphanumeric()
}

/// The type `regex::Regex`, carried opaquely.
#[verifier::external_type_specification]
#[verifier::external_body]
pub struct ExRegex(regex::Regex);

/// A compiled regular expression together with the pattern it was compiled
/// from. Only `compile_regex` builds one, so `pattern` is always the source of
/// `regex`.
pub struct CompiledRegex {
    regex: regex::Regex,
    pattern: String,
}

impl CompiledRegex {
    /// The pattern this regex was compiled from.
    pub closed spec fn source(&self) -> Seq<char> {
        self.pattern@
    }
}

/// `regex::Regex::new`: succeeds exactly when `regex_compiles(pattern)`; the
/// result keeps a copy of the pattern it was compiled from.
#[verifier::external_body]
pub(crate) fn compile_regex(pattern: &str) -> (r: Option<CompiledRegex>)
    ensures
        r is Some <==> regex_compiles(pattern@),
        r matches Some(c) ==> c.source() == pattern@,
{
    match regex::Regex::new(pattern) {
        Ok(regex) => Some(CompiledRegex { regex, pattern: pattern.to_owned() }),
        Err(_) => None,
    }
}

/// `regex::Regex::is_match`: whether the regex matches somewhere in
/// `haystack`, named by `regex_is_match` over the regex's source pattern.
#[verifier::external_body]
pub(crate) fn regex_matches(re: &CompiledRegex, haystack: &str) -> (r: bool)
    ensures
        r == regex_is_match(re.source(), haystack@),
{
    re.regex.is_match(haystack)
}

} // verus!
