//! Character classes of the standard library, which go by Unicode's tables.

use vstd::prelude::*;

verus! {

/// Whether `char::is_alphanumeric` holds of `c`.
pub uninterp spec fn is_alphanumeric_char(c: char) -> bool;

/// Calls `char::is_alphanumeric`, which tells whether a character is a letter
/// or a number by Unicode's tables. The result is a function of the character
/// alone; the contract gives it its name and claims nothing more.
#[verifier::external_body]
pub(crate) fn is_alphanumeric(c: char) -> (alphanumeric: bool)
    ensures
        alphanumeric == is_alphanumeric_char(c),
{
    c.is_alphanumeric()
}

/// Whether `char::is_whitespace` holds of `c`.
pub uninterp spec fn is_whitespace_char(c: char) -> bool;

/// Calls `char::is_whitespace`, which tells whether a character has
/// Unicode's `White_Space` property. The result is a function of the
/// character alone; the contract gives it its name and claims nothing more.
#[verifier::external_body]
pub(crate) fn is_whitespace(c: char) -> (whitespace: bool)
    ensures
        whitespace == is_whitespace_char(c),
{
    c.is_whitespace()
}

/// The text that `str::to_lowercase` gives for `text`.
pub uninterp spec fn lowercase_of(text: Seq<char>) -> Seq<char>;

/// Calls `str::to_lowercase`, which gives the lowercase equivalent of a text
/// by Unicode's tables. The result is a function of the text alone; the
/// contract gives it its name and claims nothing more.
#[verifier::external_body]
pub(crate) fn to_lowercase(text: &str) -> (lowered: String)
    ensures
        lowered@ == lowercase_of(text@),
{
    text.to_lowercase()
}

} // verus!
