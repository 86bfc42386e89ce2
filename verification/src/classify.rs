//! Character classification predicates of the CSS syntax.
//!
//! Every predicate is total over a single byte (or over the two or three
//! lookahead bytes for the composite ones). Each executable function has a
//! spec twin that states exactly which bytes it accepts; the twin is what the
//! tokenizer model is written over.

use vstd::prelude::*;

verus! {

/// A code point between `0` and `9` inclusive.
pub open spec fn spec_is_digit(code: u8) -> bool {
    0x30 <= code && code <= 0x39
}

#[verifier::when_used_as_spec(spec_is_digit)]
pub fn is_digit(code: u8) -> (r: bool)
    ensures
        r == spec_is_digit(code),
{
    code >= 0x30 && code <= 0x39
}

/// A digit, or a code point between `A` and `F` or `a` and `f` inclusive.
pub open spec fn spec_is_hex_digit(code: u8) -> bool {
    spec_is_digit(code) || (0x41 <= code && code <= 0x46) || (0x61 <= code && code <= 0x66)
}

#[verifier::when_used_as_spec(spec_is_hex_digit)]
pub fn is_hex_digit(code: u8) -> (r: bool)
    ensures
        r == spec_is_hex_digit(code),
{
    is_digit(code) || (code >= 0x41 && code <= 0x46) || (code >= 0x61 && code <= 0x66)
}

/// A code point between `A` and `Z` inclusive.
pub open spec fn spec_is_uppercase_letter(code: u8) -> bool {
    0x41 <= code && code <= 0x5A
}

#[verifier::when_used_as_spec(spec_is_uppercase_letter)]
pub fn is_uppercase_letter(code: u8) -> (r: bool)
    ensures
        r == spec_is_uppercase_letter(code),
{
    code >= 0x41 && code <= 0x5A
}

/// A code point between `a` and `z` inclusive.
pub open spec fn spec_is_lowercase_ltter(code: u8) -> bool {
    0x61 <= code && code <= 0x7A
}

#[verifier::when_used_as_spec(spec_is_lowercase_ltter)]
pub fn is_lowercase_ltter(code: u8) -> (r: bool)
    ensures
        r == spec_is_lowercase_ltter(code),
{
    code >= 0x61 && code <= 0x7A
}

/// An uppercase letter or a lowercase letter.
pub open spec fn spec_is_letter(code: u8) -> bool {
    spec_is_uppercase_letter(code) || spec_is_lowercase_ltter(code)
}

#[verifier::when_used_as_spec(spec_is_letter)]
pub fn is_letter(code: u8) -> (r: bool)
    ensures
        r == spec_is_letter(code),
{
    is_uppercase_letter(code) || is_lowercase_ltter(code)
}

/// A byte with a value equal to or greater than 0x80, i.e. one that is not
/// part of the ASCII range.
pub open spec fn spec_is_non_ascii(code: u8) -> bool {
    code >= 0x80
}

#[verifier::when_used_as_spec(spec_is_non_ascii)]
pub fn is_non_ascii(code: u8) -> (r: bool)
    ensures
        r == spec_is_non_ascii(code),
{
    code >= 0x80
}

/// A letter, a non-ASCII code point, or `_`.
pub open spec fn spec_is_identifier_start(code: u8) -> bool {
    spec_is_letter(code) || spec_is_non_ascii(code) || code == 0x5F
}

#[verifier::when_used_as_spec(spec_is_identifier_start)]
pub fn is_identifier_start(code: u8) -> (r: bool)
    ensures
        r == spec_is_identifier_start(code),
{
    is_letter(code) || is_non_ascii(code) || code == 0x5F
}

/// An identifier-start code point, a digit, or `-`.
pub open spec fn spec_is_identifier(code: u8) -> bool {
    spec_is_identifier_start(code) || spec_is_digit(code) || code == 0x2D
}

#[verifier::when_used_as_spec(spec_is_identifier)]
pub fn is_identifier(code: u8) -> (r: bool)
    ensures
        r == spec_is_identifier(code),
{
    is_identifier_start(code) || is_digit(code) || code == 0x2D
}

/// A code point between NULL and BACKSPACE inclusive, or LINE TABULATION, or
/// a code point between SHIFT OUT and INFORMATION SEPARATOR ONE inclusive, or
/// DELETE.
pub open spec fn spec_is_non_printable(code: u8) -> bool {
    code <= 0x08 || code == 0x0B || (0x0E <= code && code <= 0x1F) || code == 0x7F
}

#[verifier::when_used_as_spec(spec_is_non_printable)]
pub fn is_non_printable(code: u8) -> (r: bool)
    ensures
        r == spec_is_non_printable(code),
{
    code <= 0x08 || code == 0x0B || (code >= 0x0E && code <= 0x1F) || code == 0x7F
}

/// LINE FEED, CARRIAGE RETURN or FORM FEED. The cursor later counts a
/// CARRIAGE RETURN / LINE FEED pair as a single logical newline; the
/// classifier accepts each byte on its own.
pub open spec fn spec_is_newline(code: u8) -> bool {
    code == 0x0A || code == 0x0D || code == 0x0C
}

#[verifier::when_used_as_spec(spec_is_newline)]
pub fn is_newline(code: u8) -> (r: bool)
    ensures
        r == spec_is_newline(code),
{
    code == 0x0A || code == 0x0D || code == 0x0C
}

/// A newline, CHARACTER TABULATION, or SPACE.
pub open spec fn spec_is_whitespace(code: u8) -> bool {
    spec_is_newline(code) || code == 0x09 || code == 0x20
}

#[verifier::when_used_as_spec(spec_is_whitespace)]
pub fn is_whitespace(code: u8) -> (r: bool)
    ensures
        r == spec_is_whitespace(code),
{
    is_newline(code) || code == 0x09 || code == 0x20
}

/// Two code points are a valid escape when the first is a backslash and the
/// second is not a newline.
pub open spec fn spec_is_valid_escape(first: u8, second: u8) -> bool {
    first == 0x5C && !spec_is_newline(second)
}

#[verifier::when_used_as_spec(spec_is_valid_escape)]
pub fn is_valid_escape(first: u8, second: u8) -> (r: bool)
    ensures
        r == spec_is_valid_escape(first, second),
{
    first == 0x5C && !is_newline(second)
}

/// Three code points would start an identifier when they begin with an
/// identifier-start code point, with a hyphen that an identifier-start code
/// point, a second hyphen or an escape follows, or with a valid escape.
pub open spec fn spec_would_start_an_identifier(first: u8, second: u8, third: u8) -> bool {
    if first == 0x2D {
        spec_is_identifier_start(second) || second == 0x2D || spec_is_valid_escape(second, third)
    } else if spec_is_identifier_start(first) {
        true
    } else if first == 0x5C {
        spec_is_valid_escape(first, second)
    } else {
        false
    }
}

#[verifier::when_used_as_spec(spec_would_start_an_identifier)]
pub fn would_start_an_identifier(first: u8, second: u8, third: u8) -> (r: bool)
    ensures
        r == spec_would_start_an_identifier(first, second, third),
{
    if first == 0x2D {
        is_identifier_start(second) || second == 0x2D || is_valid_escape(second, third)
    } else if is_identifier_start(first) {
        true
    } else if first == 0x5C {
        is_valid_escape(first, second)
    } else {
        false
    }
}

/// Three code points would start a number when they begin with a digit, with
/// a sign that a digit or a full stop and a digit follow, or with a full stop
/// that a digit follows.
pub open spec fn spec_would_start_a_number(first: u8, second: u8, third: u8) -> bool {
    if first == 0x2B || first == 0x2D {
        spec_is_digit(second) || (second == 0x2E && spec_is_digit(third))
    } else if first == 0x2E {
        spec_is_digit(second)
    } else {
        spec_is_digit(first)
    }
}

#[verifier::when_used_as_spec(spec_would_start_a_number)]
pub fn would_start_a_number(first: u8, second: u8, third: u8) -> (r: bool)
    ensures
        r == spec_would_start_a_number(first, second, third),
{
    if first == 0x2B || first == 0x2D {
        return is_digit(second) || (second == 0x2E && is_digit(third));
    }
    if first == 0x2E {
        return is_digit(second);
    }
    is_digit(first)
}

/// A UTF-8 continuation byte: one of the trailing bytes of a multi-byte
/// encoded scalar value, i.e. a byte whose two high bits are `10`.
pub open spec fn spec_utf8_is_cont_byte(byte: u8) -> bool {
    0x80 <= byte && byte <= 0xBF
}

#[verifier::when_used_as_spec(spec_utf8_is_cont_byte)]
pub fn utf8_is_cont_byte(byte: u8) -> (r: bool)
    ensures
        r == spec_utf8_is_cont_byte(byte),
{
    proof {
        assert((byte & 0xC0 == 0x80) == (0x80 <= byte && byte <= 0xBF)) by (bit_vector);
    }
    (byte & 0xC0) == 0x80
}

} // verus!
