//! Character classes and string operations of the standard library that the
//! tokenizer and the routing rest on.

use vstd::prelude::*;

verus! {

/// Whether `c` is whitespace: what `char::is_whitespace` says of `c`.
pub uninterp spec fn is_whitespace(c: char) -> bool;

/// Whether `c` is numeric: what `char::is_numeric` says of `c`.
pub uninterp spec fn is_numeric(c: char) -> bool;

/// Whether `c` is alphabetic or numeric: what `char::is_alphanumeric` says of `c`.
pub uninterp spec fn is_alphanumeric(c: char) -> bool;

/// The upper-case form of an ASCII lower-case letter; any other character unchanged.
pub open spec fn ascii_upper(c: char) -> char {
    if 'a' <= c && c <= 'z' {
        ((c as u8) - 32) as char
    } else {
        c
    }
}

/// `char::is_whitespace`: the result is the `White_Space` property of `c`,
/// which the Unicode tables of the standard library decide.
#[verifier::external_body]
pub(crate) fn char_is_whitespace(c: char) -> (b: bool)
    ensures
        b == is_whitespace(c),
{
    c.is_whitespace()
}

/// `char::is_numeric`: the result is membership of `c` in the numeric
/// categories, which the Unicode tables of the standard library decide.
#[verifier::external_body]
pub(crate) fn char_is_numeric(c: char) -> (b: bool)
    ensures
        b == is_numeric(c),
{
    c.is_numeric()
}

/// `char::is_alphanumeric`: the result is whether `c` is alphabetic or
/// numeric, which the Unicode tables of the standard library decide.
#[verifier::external_body]
pub(crate) fn char_is_alphanumeric(c: char) -> (b: bool)
    ensures
        b == is_alphanumeric(c),
{
    c.is_alphanumeric()
}

/// `String::push`: appends `c` to the end of `s`.
#[verifier::external_body]
pub(crate) fn string_push(s: &mut String, c: char)
    ensures
        final(s)@ == old(s)@.push(c),
{
    s.push(c)
}

/// `str::eq`: two string slices are equal exactly when they hold the same
/// characters in the same order.
#[verifier::external_body]
pub(crate) fn str_eq(a: &str, b: &str) -> (same: bool)
    ensures
        same == (a@ == b@),
{
    a == b
}

/// Maps `'a'..='z'` to `'A'..='Z'` and leaves every other character as it is.
pub fn to_ascii_upper(c: char) -> (r: char)
    ensures
        r == ascii_upper(c),
{
    if 'a' <= c && c <= 'z' {
        ((c as u8) - 32) as char
    } else {
        c
    }
}

} // verus!
