//! Character classification: decimal digits, the single-character symbols of
//! the language, and the identifier-continuation predicate.

use vstd::prelude::*;

verus! {

/// Whether `c` is an ASCII decimal digit, `'0'` through `'9'`.
pub open spec fn is_digit_char(c: char) -> bool {
    '0' <= c && c <= '9'
}

/// Whether `c` is Unicode alphanumeric, as `char::is_alphanumeric` decides it;
/// a function of the character alone.
pub uninterp spec fn unicode_alphanumeric(c: char) -> bool;

/// Relies on `char::is_alphanumeric`: Unicode-aware alphanumeric
/// classification, a pure function of the character.
#[verifier::external_body]
fn char_is_alphanumeric(c: char) -> (r: bool)
    ensures
        r == unicode_alphanumeric(c),
{
    c.is_alphanumeric()
}

/// Whether `c` may continue an identifier: Unicode alphanumeric or underscore.
pub open spec fn is_identifier_char(c: char) -> bool {
    unicode_alphanumeric(c) || c == '_'
}

/// A character is valid inside an identifier iff it is alphanumeric (in the
/// Unicode sense) or an underscore.
pub fn is_valid_identifier_char(ch: char) -> (r: bool)
    ensures
        r == is_identifier_char(ch),
{
    char_is_alphanumeric(ch) || ch == '_'
}

/// Checks whether `c` is an ASCII decimal digit.
pub fn is_digit(c: char) -> (r: bool)
    ensures
        r == is_digit_char(c),
{
    '0' <= c && c <= '9'
}

} // verus!
