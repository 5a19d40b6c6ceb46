use regex::Regex;
use vstd::prelude::*;
use vstd::utf8::is_ascii_chars;

verus! {

/// `regex::Regex`, a compiled pattern. Nothing of its inside is used: a matcher is
/// made by `compile` and asked by `is_match`.
#[verifier::external_type_specification]
#[verifier::external_body]
pub struct ExRegex(regex::Regex);

/// The pattern text that a compiled matcher was built from, as `Regex::as_str`
/// gives it back.
pub uninterp spec fn pattern_of(matcher: Regex) -> Seq<char>;

/// Matches a text made of ASCII characters only.
pub const ASCII_ONLY: &'static str = "^[[:ascii:]]*$";

/// Matches a character that may not stand in a slug.
pub const NOT_SLUG: &'static str = "[^a-z_\\n]";

/// The characters of a slug: small Latin letters, the underscore and the line feed.
pub open spec fn is_slug_char(c: char) -> bool {
    ('a' <= c <= 'z') || c == '_' || c == '\n'
}

/// Whether `text` holds a character that may not stand in a slug.
pub open spec fn has_non_slug_char(text: Seq<char>) -> bool {
    exists|i: int| 0 <= i < text.len() && !is_slug_char(#[trigger] text[i])
}

/// `Regex::new` on one of the two patterns of this crate, both of which are well
/// formed, so that it returns a matcher. The matcher remembers its pattern.
#[verifier::external_body]
pub(crate) fn compile(pattern: &str) -> (matcher: Regex)
    requires
        pattern@ == ASCII_ONLY@ || pattern@ == NOT_SLUG@,
    ensures
        pattern_of(matcher) == pattern@,
{
    Regex::new(pattern).unwrap()
}

/// `Regex::is_match`: whether the pattern matches anywhere in `text`. Read by the
/// pattern syntax of the regex crate: `^[[:ascii:]]*$` spans the whole text with
/// characters up to U+007F, so it matches exactly the all-ASCII texts, the empty
/// one among them; `[^a-z_\n]` matches one character outside `a` to `z`, `_` and
/// the line feed, so it is found exactly where such a character occurs.
#[verifier::external_body]
pub(crate) fn is_match(matcher: &Regex, text: &str) -> (found: bool)
    ensures
        pattern_of(*matcher) == ASCII_ONLY@ ==> found == is_ascii_chars(text@),
        pattern_of(*matcher) == NOT_SLUG@ ==> found == has_non_slug_char(text@),
{
    matcher.is_match(text)
}

} // verus!
