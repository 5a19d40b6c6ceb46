use vstd::prelude::*;

verus! {

/// The characters that `char::to_lowercase` yields for `c`, in order.
pub uninterp spec fn char_lowercase(c: char) -> Seq<char>;

/// The text that `str::to_lowercase` returns for `s`.
pub uninterp spec fn text_lowercase(s: Seq<char>) -> Seq<char>;

/// Whether `char::is_alphanumeric` holds of `c`.
pub uninterp spec fn char_is_alphanumeric(c: char) -> bool;

/// `char::to_lowercase`: the Unicode lowercase mapping of one character, which may
/// be more than one character long. Nothing is claimed of the mapping beyond its
/// being a function of `c`.
#[verifier::external_body]
pub(crate) fn lowercase_of_char(c: char) -> (lowered: Vec<char>)
    ensures
        lowered@ == char_lowercase(c),
{
    c.to_lowercase().collect()
}

/// `str::to_lowercase`: the Unicode lowercase form of a whole text. It is named
/// apart from the per-character mapping because it treats a final capital sigma
/// by its context.
#[verifier::external_body]
pub(crate) fn lowercase_of_str(s: &str) -> (lowered: String)
    ensures
        lowered@ == text_lowercase(s@),
{
    s.to_lowercase()
}

/// `char::is_alphanumeric`: membership in Unicode's alphabetic or numeric classes.
#[verifier::external_body]
pub(crate) fn is_alphanumeric(c: char) -> (yes: bool)
    ensures
        yes == char_is_alphanumeric(c),
{
    c.is_alphanumeric()
}

} // verus!
