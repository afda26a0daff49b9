//! Codepoint classification, as the tokeniser needs it.
//!
//! The Unicode character classes themselves are taken from std; each class is
//! named by an uninterpreted spec function, and a trusted wrapper ties the
//! std predicate to that name.

use vstd::prelude::*;

verus! {

/// Whether a codepoint has the Unicode `White_Space` property, exactly as
/// `char::is_whitespace` decides it.
pub uninterp spec fn char_is_whitespace(c: char) -> bool;

/// Whether a codepoint has the Unicode `Alphabetic` property, exactly as
/// `char::is_alphabetic` decides it.
pub uninterp spec fn char_is_alphabetic(c: char) -> bool;

/// Whether a codepoint is in one of the Unicode number categories
/// (`Nd`, `Nl`, `No`), exactly as `char::is_numeric` decides it.
pub uninterp spec fn char_is_numeric(c: char) -> bool;

/// An alphanumeric codepoint: `char::is_alphanumeric` is documented to return
/// `is_alphabetic() || is_numeric()`.
pub open spec fn char_is_alphanumeric(c: char) -> bool {
    char_is_alphabetic(c) || char_is_numeric(c)
}

/// Relies on `char::is_whitespace`: the result depends on the codepoint alone.
#[verifier::external_body]
pub(crate) fn is_whitespace(c: char) -> (r: bool)
    ensures
        r == char_is_whitespace(c),
{
    c.is_whitespace()
}

/// Relies on `char::is_alphabetic`: the result depends on the codepoint alone.
#[verifier::external_body]
pub(crate) fn is_alphabetic(c: char) -> (r: bool)
    ensures
        r == char_is_alphabetic(c),
{
    c.is_alphabetic()
}

/// Relies on `char::is_numeric`: the result depends on the codepoint alone.
#[verifier::external_body]
pub(crate) fn is_numeric(c: char) -> (r: bool)
    ensures
        r == char_is_numeric(c),
{
    c.is_numeric()
}

/// Relies on `char::is_alphanumeric`, documented as
/// `is_alphabetic() || is_numeric()`.
#[verifier::external_body]
pub(crate) fn is_alphanumeric(c: char) -> (r: bool)
    ensures
        r == char_is_alphanumeric(c),
{
    c.is_alphanumeric()
}

/// A Unicode scalar value: what a `char` may hold, and what
/// `char::from_u32` is documented to accept.
pub open spec fn is_unicode_scalar(v: u32) -> bool {
    v < 0xD800 || (0xE000 <= v && v <= 0x10FFFF)
}

/// Relies on `char::from_u32`: documented to return `None` exactly when the
/// value is a surrogate or above `char::MAX`, and otherwise the codepoint
/// with that value.
#[verifier::external_body]
pub(crate) fn char_from_u32(v: u32) -> (r: Option<char>)
    ensures
        r is Some <==> is_unicode_scalar(v),
        r matches Some(c) ==> c as u32 == v,
{
    char::from_u32(v)
}

} // verus!
