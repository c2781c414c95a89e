//! Byte values the scanner gives a meaning to, and the byte classes built
//! from them. Classification is by byte value only.

use vstd::prelude::*;

verus! {

/// Horizontal tab.
pub const TB: u8 = 9;

/// Line feed.
pub const LF: u8 = 10;

/// Carriage return.
pub const CR: u8 = 13;

/// Space.
pub const SP: u8 = 32;

/// Double quote `"`.
pub const QUO: u8 = 34;

/// Dollar sign `$`.
pub const DLS: u8 = 36;

/// Percent sign `%`, the literal-toggle marker.
pub const REM: u8 = 37;

/// Asterisk `*`.
pub const MUL: u8 = 42;

/// Slash `/`.
pub const SLA: u8 = 47;

/// Less-than sign `<`.
pub const LSS: u8 = 60;

/// Equals sign `=`.
pub const EQS: u8 = 61;

/// Greater-than sign `>`.
pub const GTR: u8 = 62;

/// At sign `@`.
pub const ATS: u8 = 64;

/// Backslash `\`.
pub const BKS: u8 = 92;

/// Underscore `_`.
pub const UND: u8 = 95;

/// Space, tab, carriage return or line feed.
pub open spec fn spec_is_whitespace(c: u8) -> bool {
    c == SP || c == TB || c == CR || c == LF
}

/// A lower-case ASCII letter.
pub open spec fn spec_is_lower_letter(c: u8) -> bool {
    97 <= c <= 122
}

/// An upper-case ASCII letter.
pub open spec fn spec_is_upper_letter(c: u8) -> bool {
    65 <= c <= 90
}

/// An ASCII decimal digit.
pub open spec fn spec_is_digit(c: u8) -> bool {
    48 <= c <= 57
}

/// A byte that ends a line: line feed or carriage return.
pub open spec fn spec_is_line_break(c: u8) -> bool {
    c == LF || c == CR
}

#[verifier::when_used_as_spec(spec_is_whitespace)]
pub fn is_whitespace(c: u8) -> (r: bool)
    ensures
        r == spec_is_whitespace(c),
{
    c == SP || c == TB || c == CR || c == LF
}

#[verifier::when_used_as_spec(spec_is_lower_letter)]
pub fn is_lower_letter(c: u8) -> (r: bool)
    ensures
        r == spec_is_lower_letter(c),
{
    c >= 97u8 && c <= 122u8
}

#[verifier::when_used_as_spec(spec_is_upper_letter)]
pub fn is_upper_letter(c: u8) -> (r: bool)
    ensures
        r == spec_is_upper_letter(c),
{
    c >= 65u8 && c <= 90u8
}

#[verifier::when_used_as_spec(spec_is_digit)]
pub fn is_digit(c: u8) -> (r: bool)
    ensures
        r == spec_is_digit(c),
{
    c >= 48u8 && c <= 57u8
}

#[verifier::when_used_as_spec(spec_is_line_break)]
pub fn is_line_break(c: u8) -> (r: bool)
    ensures
        r == spec_is_line_break(c),
{
    c == LF || c == CR
}

} // verus!
