//! The mathematical model of the tokenization algorithm.
//!
//! Every function here is specification-only. [`next_spec`] maps an input and
//! a byte offset to the token that a call of the tokenizer produces there and
//! to the offset at which the cursor then stands; the remaining functions are
//! the sub-consumers it is composed of, each mirroring one step of the CSS
//! tokenization algorithm. The executable tokenizer is verified to agree with
//! this model call for call.

use vstd::prelude::*;

use crate::classify::{
    spec_is_digit, spec_is_hex_digit, spec_is_identifier, spec_is_identifier_start,
    spec_is_newline, spec_is_non_printable, spec_is_valid_escape, spec_is_whitespace,
    spec_utf8_is_cont_byte, spec_would_start_a_number, spec_would_start_an_identifier,
};
use crate::token::TokenModel;

verus! {

/// The byte at offset `p`, or the sentinel 0 past either end of the input.
pub open spec fn byte_at(s: Seq<u8>, p: int) -> u8 {
    if 0 <= p && p < s.len() {
        s[p]
    } else {
        0
    }
}

/// The bytes of the input from offset `a` inclusive to `b` exclusive.
pub open spec fn span(s: Seq<u8>, a: int, b: int) -> Seq<u8> {
    s.subrange(a, b)
}

/// The length of a leading UTF-8 byte-order mark: 3 when the input begins
/// with the bytes `EF BB BF`, otherwise 0.
pub open spec fn bom_len(s: Seq<u8>) -> int {
    if s.len() >= 3 && s[0] == 0xEF && s[1] == 0xBB && s[2] == 0xBF {
        3
    } else {
        0
    }
}

/// The offset of the first byte at or after `p` that is not whitespace, or
/// the end of the input.
pub open spec fn ws_end(s: Seq<u8>, p: int) -> int
    decreases s.len() - p,
{
    if p < s.len() && spec_is_whitespace(byte_at(s, p)) {
        ws_end(s, p + 1)
    } else {
        p
    }
}

/// The offset of the first byte at or after `p` that is not a digit, or the
/// end of the input.
pub open spec fn digits_end(s: Seq<u8>, p: int) -> int
    decreases s.len() - p,
{
    if p < s.len() && spec_is_digit(byte_at(s, p)) {
        digits_end(s, p + 1)
    } else {
        p
    }
}

/// The offset after consuming at most `k` further hex digits from `p`.
pub open spec fn hex_run_end(s: Seq<u8>, p: int, k: nat) -> int
    decreases k,
{
    if k == 0 {
        p
    } else if p < s.len() && spec_is_hex_digit(byte_at(s, p)) {
        hex_run_end(s, p + 1, (k - 1) as nat)
    } else {
        p
    }
}

/// The offset after consuming an escape sequence whose backslash stands at
/// `p`: the backslash, the escaped byte if the input does not end first,
/// then — for a hex escape — up to five further hex digits and one trailing
/// whitespace occurrence, a CR LF pair counting as one occurrence.
pub open spec fn escaped_end(s: Seq<u8>, p: int) -> int {
    if p + 1 >= s.len() {
        p + 1
    } else {
        let c = s[p + 1];
        if spec_is_hex_digit(c) {
            let h = hex_run_end(s, p + 2, 5);
            if h < s.len() && spec_is_whitespace(s[h]) {
                if s[h] == 0x0D && byte_at(s, h + 1) == 0x0A {
                    h + 2
                } else {
                    h + 1
                }
            } else {
                h
            }
        } else {
            p + 2
        }
    }
}

pub proof fn lemma_hex_run_end_bounds(s: Seq<u8>, p: int, k: nat)
    requires
        0 <= p <= s.len(),
    ensures
        p <= hex_run_end(s, p, k) <= s.len(),
    decreases k,
{
    if k > 0 && p < s.len() && spec_is_hex_digit(byte_at(s, p)) {
        lemma_hex_run_end_bounds(s, p + 1, (k - 1) as nat);
    }
}

pub proof fn lemma_escaped_end_bounds(s: Seq<u8>, p: int)
    requires
        0 <= p < s.len(),
    ensures
        p + 1 <= escaped_end(s, p) <= s.len(),
{
    if p + 1 < s.len() {
        lemma_hex_run_end_bounds(s, p + 2, 5);
    }
}

/// The offset of the first byte at or after `p` that neither continues an
/// identifier nor begins a valid escape, each escape consumed as a unit.
pub open spec fn ident_end(s: Seq<u8>, p: int) -> int
    decreases s.len() - p,
        when 0 <= p <= s.len()
        via ident_end_decreases
{
    if p < s.len() {
        if spec_is_identifier(s[p]) {
            ident_end(s, p + 1)
        } else if spec_is_valid_escape(s[p], byte_at(s, p + 1)) {
            ident_end(s, escaped_end(s, p))
        } else {
            p
        }
    } else {
        p
    }
}

#[via_fn]
proof fn ident_end_decreases(s: Seq<u8>, p: int) {
    if 0 <= p && p < s.len() {
        lemma_escaped_end_bounds(s, p);
    }
}

pub proof fn lemma_ident_end_bounds(s: Seq<u8>, p: int)
    requires
        0 <= p <= s.len(),
    ensures
        p <= ident_end(s, p) <= s.len(),
    decreases s.len() - p,
{
    if p < s.len() {
        if spec_is_identifier(s[p]) {
            lemma_ident_end_bounds(s, p + 1);
        } else if spec_is_valid_escape(s[p], byte_at(s, p + 1)) {
            lemma_escaped_end_bounds(s, p);
            lemma_ident_end_bounds(s, escaped_end(s, p));
        }
    }
}

/// The offset after the body of a comment that is scanned from `p`: past the
/// first `*/` found, or the end of the input.
pub open spec fn comment_scan(s: Seq<u8>, p: int) -> int
    decreases s.len() - p,
{
    if p >= s.len() {
        p
    } else if s[p] == 0x2A && byte_at(s, p + 1) == 0x2F {
        p + 2
    } else {
        comment_scan(s, p + 1)
    }
}

pub proof fn lemma_comment_scan_bounds(s: Seq<u8>, p: int)
    requires
        0 <= p <= s.len(),
    ensures
        p <= comment_scan(s, p) <= s.len(),
    decreases s.len() - p,
{
    if p < s.len() && !(s[p] == 0x2A && byte_at(s, p + 1) == 0x2F) {
        lemma_comment_scan_bounds(s, p + 1);
    }
}

/// The scan of a string body from `p`, with `q` the opening quote byte.
/// Yields whether the string was interrupted by a bare newline, and the
/// offset where the token ends: past the closing quote on success, before
/// the newline on interruption, at the end of the input otherwise.
pub open spec fn string_scan(s: Seq<u8>, q: u8, p: int) -> (bool, int)
    decreases s.len() - p,
        when 0 <= p <= s.len()
        via string_scan_decreases
{
    if p >= s.len() {
        (false, p)
    } else {
        let b = s[p];
        if b == q {
            (false, p + 1)
        } else if spec_is_newline(b) {
            (true, p)
        } else if b == 0x5C {
            if p + 1 >= s.len() {
                (false, p + 1)
            } else if spec_is_newline(s[p + 1]) {
                if s[p + 1] == 0x0D && byte_at(s, p + 2) == 0x0A {
                    string_scan(s, q, p + 3)
                } else {
                    string_scan(s, q, p + 2)
                }
            } else {
                string_scan(s, q, escaped_end(s, p))
            }
        } else {
            string_scan(s, q, p + 1)
        }
    }
}

#[via_fn]
proof fn string_scan_decreases(s: Seq<u8>, q: u8, p: int) {
    if 0 <= p && p < s.len() {
        lemma_escaped_end_bounds(s, p);
    }
}

pub proof fn lemma_string_scan_bounds(s: Seq<u8>, q: u8, p: int)
    requires
        0 <= p <= s.len(),
    ensures
        p <= string_scan(s, q, p).1 <= s.len(),
    decreases s.len() - p,
{
    if p < s.len() {
        let b = s[p];
        if b == q || spec_is_newline(b) {
        } else if b == 0x5C {
            if p + 1 >= s.len() {
            } else if spec_is_newline(s[p + 1]) {
                if s[p + 1] == 0x0D && byte_at(s, p + 2) == 0x0A {
                    lemma_string_scan_bounds(s, q, p + 3);
                } else {
                    lemma_string_scan_bounds(s, q, p + 2);
                }
            } else {
                lemma_escaped_end_bounds(s, p);
                lemma_string_scan_bounds(s, q, escaped_end(s, p));
            }
        } else {
            lemma_string_scan_bounds(s, q, p + 1);
        }
    }
}

/// The offset where recovery from a malformed url ends: past the first
/// closing parenthesis found, escapes consumed as units, or the end of the
/// input.
pub open spec fn bad_url_end(s: Seq<u8>, p: int) -> int
    decreases s.len() - p,
        when 0 <= p <= s.len()
        via bad_url_end_decreases
{
    if p >= s.len() {
        p
    } else if s[p] == 0x29 {
        p + 1
    } else if spec_is_valid_escape(s[p], byte_at(s, p + 1)) {
        bad_url_end(s, escaped_end(s, p))
    } else {
        bad_url_end(s, p + 1)
    }
}

#[via_fn]
proof fn bad_url_end_decreases(s: Seq<u8>, p: int) {
    if 0 <= p && p < s.len() {
        lemma_escaped_end_bounds(s, p);
    }
}

pub proof fn lemma_bad_url_end_bounds(s: Seq<u8>, p: int)
    requires
        0 <= p <= s.len(),
    ensures
        p <= bad_url_end(s, p) <= s.len(),
    decreases s.len() - p,
{
    if p < s.len() && s[p] != 0x29 {
        if spec_is_valid_escape(s[p], byte_at(s, p + 1)) {
            lemma_escaped_end_bounds(s, p);
            lemma_bad_url_end_bounds(s, escaped_end(s, p));
        } else {
            lemma_bad_url_end_bounds(s, p + 1);
        }
    }
}

pub proof fn lemma_ws_end_bounds(s: Seq<u8>, p: int)
    requires
        0 <= p <= s.len(),
    ensures
        p <= ws_end(s, p) <= s.len(),
    decreases s.len() - p,
{
    if p < s.len() && spec_is_whitespace(byte_at(s, p)) {
        lemma_ws_end_bounds(s, p + 1);
    }
}

pub proof fn lemma_digits_end_bounds(s: Seq<u8>, p: int)
    requires
        0 <= p <= s.len(),
    ensures
        p <= digits_end(s, p) <= s.len(),
    decreases s.len() - p,
{
    if p < s.len() && spec_is_digit(byte_at(s, p)) {
        lemma_digits_end_bounds(s, p + 1);
    }
}

/// The scan of a url body from `p`. Yields whether the body is malformed,
/// the offset where the carried value ends, and the offset where the token
/// ends. On success the value excludes the whitespace before the closing
/// parenthesis and the token extends past that parenthesis; on failure both
/// offsets are the point to which recovery discarded.
pub open spec fn url_scan(s: Seq<u8>, p: int) -> (bool, int, int)
    decreases s.len() - p,
        when 0 <= p <= s.len()
        via url_scan_decreases
{
    if p >= s.len() {
        (false, p, p)
    } else {
        let b = s[p];
        if b == 0x29 {
            (false, p, p + 1)
        } else if spec_is_whitespace(b) {
            let w = ws_end(s, p);
            if w >= s.len() {
                (false, p, w)
            } else if s[w] == 0x29 {
                (false, p, w + 1)
            } else {
                let e = bad_url_end(s, w);
                (true, e, e)
            }
        } else if b == 0x22 || b == 0x27 || b == 0x28 || spec_is_non_printable(b) {
            let e = bad_url_end(s, p);
            (true, e, e)
        } else if b == 0x5C {
            if spec_is_valid_escape(b, byte_at(s, p + 1)) {
                url_scan(s, escaped_end(s, p))
            } else {
                let e = bad_url_end(s, p);
                (true, e, e)
            }
        } else {
            url_scan(s, p + 1)
        }
    }
}

#[via_fn]
proof fn url_scan_decreases(s: Seq<u8>, p: int) {
    if 0 <= p && p < s.len() {
        lemma_escaped_end_bounds(s, p);
    }
}

pub proof fn lemma_url_scan_bounds(s: Seq<u8>, p: int)
    requires
        0 <= p <= s.len(),
    ensures
        p <= url_scan(s, p).1 <= url_scan(s, p).2 <= s.len(),
    decreases s.len() - p,
{
    if p < s.len() {
        let b = s[p];
        if b == 0x29 {
        } else if spec_is_whitespace(b) {
            lemma_ws_end_bounds(s, p);
            if ws_end(s, p) < s.len() && s[ws_end(s, p)] != 0x29 {
                lemma_bad_url_end_bounds(s, ws_end(s, p));
            }
        } else if b == 0x22 || b == 0x27 || b == 0x28 || spec_is_non_printable(b) {
            lemma_bad_url_end_bounds(s, p);
        } else if b == 0x5C {
            if spec_is_valid_escape(b, byte_at(s, p + 1)) {
                lemma_escaped_end_bounds(s, p);
                lemma_url_scan_bounds(s, escaped_end(s, p));
            } else {
                lemma_bad_url_end_bounds(s, p);
            }
        } else {
            lemma_url_scan_bounds(s, p + 1);
        }
    }
}

/// The offset after the numeric part of a numeric token that begins at `p`:
/// an optional sign, integer digits, a full stop with further digits if one
/// stands there, and an exponent marker with an optional sign and digits if
/// one stands there.
pub open spec fn number_end(s: Seq<u8>, p: int) -> int {
    let q1 = if byte_at(s, p) == 0x2B || byte_at(s, p) == 0x2D {
        p + 1
    } else {
        p
    };
    let q2 = digits_end(s, q1);
    let q3 = if byte_at(s, q2) == 0x2E {
        digits_end(s, q2 + 1)
    } else {
        q2
    };
    if byte_at(s, q3) == 0x45 || byte_at(s, q3) == 0x65 {
        let q4 = if byte_at(s, q3 + 1) == 0x2B || byte_at(s, q3 + 1) == 0x2D {
            q3 + 2
        } else {
            q3 + 1
        };
        digits_end(s, q4)
    } else {
        q3
    }
}

pub proof fn lemma_number_end_bounds(s: Seq<u8>, p: int)
    requires
        0 <= p <= s.len(),
    ensures
        p <= number_end(s, p) <= s.len(),
{
    let q1 = if byte_at(s, p) == 0x2B || byte_at(s, p) == 0x2D {
        p + 1
    } else {
        p
    };
    lemma_digits_end_bounds(s, q1);
    let q2 = digits_end(s, q1);
    let q3 = if byte_at(s, q2) == 0x2E {
        lemma_digits_end_bounds(s, q2 + 1);
        digits_end(s, q2 + 1)
    } else {
        q2
    };
    if byte_at(s, q3) == 0x45 || byte_at(s, q3) == 0x65 {
        let q4 = if byte_at(s, q3 + 1) == 0x2B || byte_at(s, q3 + 1) == 0x2D {
            q3 + 2
        } else {
            q3 + 1
        };
        lemma_digits_end_bounds(s, q4);
    }
}

/// Whether a lexeme spells `url`, in any mixture of letter cases.
pub open spec fn is_url_lexeme(lex: Seq<u8>) -> bool {
    &&& lex.len() == 3
    &&& (lex[0] == 0x75 || lex[0] == 0x55)
    &&& (lex[1] == 0x72 || lex[1] == 0x52)
    &&& (lex[2] == 0x6C || lex[2] == 0x4C)
}

/// The whitespace token that begins at `p`.
pub open spec fn whitespace_token(s: Seq<u8>, p: int) -> (TokenModel, int) {
    let e = ws_end(s, p);
    (TokenModel::WhiteSpace(span(s, p, e)), e)
}

/// The comment token whose `/*` stands at `p`.
pub open spec fn comment_token(s: Seq<u8>, p: int) -> (TokenModel, int) {
    let e = comment_scan(s, p + 2);
    (TokenModel::Comment(span(s, p, e)), e)
}

/// The string token whose opening quote stands at `p`.
pub open spec fn string_token(s: Seq<u8>, p: int) -> (TokenModel, int) {
    let r = string_scan(s, byte_at(s, p), p + 1);
    if r.0 {
        (TokenModel::BadString(span(s, p, r.1)), r.1)
    } else {
        (TokenModel::String(span(s, p, r.1)), r.1)
    }
}

/// The numeric token that begins at `p`: a dimension when an identifier
/// follows the numeric part, a percentage when `%` follows it, and a plain
/// number otherwise.
pub open spec fn numeric_token(s: Seq<u8>, p: int) -> (TokenModel, int) {
    let ne = number_end(s, p);
    if spec_would_start_an_identifier(
        byte_at(s, ne),
        byte_at(s, ne + 1),
        byte_at(s, ne + 2),
    ) {
        let e = ident_end(s, ne);
        (TokenModel::Dimension(span(s, p, e)), e)
    } else if byte_at(s, ne) == 0x25 {
        (TokenModel::Percentage(span(s, p, ne + 1)), ne + 1)
    } else {
        (TokenModel::Number(span(s, p, ne)), ne)
    }
}

/// The url token whose body is scanned from `p`, after any leading
/// whitespace standing there.
pub open spec fn url_token(s: Seq<u8>, p: int) -> (TokenModel, int) {
    let q = ws_end(s, p);
    let r = url_scan(s, q);
    if r.0 {
        (TokenModel::BadUrl(span(s, q, r.2)), r.2)
    } else {
        (TokenModel::Url(span(s, q, r.1)), r.2)
    }
}

/// The ident-like token that begins at `p`: a url token when the identifier
/// spells `url` and no quote follows the opening parenthesis, a function
/// token when the identifier spells `url` and a quote follows or when an
/// opening parenthesis follows directly, and a plain identifier otherwise.
pub open spec fn ident_like_token(s: Seq<u8>, p: int) -> (TokenModel, int) {
    let ie = ident_end(s, p);
    let lex = span(s, p, ie);
    if is_url_lexeme(lex) {
        let q1 = if byte_at(s, ie) == 0x28 {
            ie + 1
        } else {
            ie
        };
        let q2 = ws_end(s, q1);
        if byte_at(s, q2) == 0x22 || byte_at(s, q2) == 0x27 {
            (TokenModel::Function(lex), q2)
        } else {
            url_token(s, q2)
        }
    } else if byte_at(s, ie) == 0x28 {
        (TokenModel::Function(lex), ie + 1)
    } else {
        (TokenModel::Ident(lex), ie)
    }
}

/// The hash or delimiter token whose `#` stands at `p`.
pub open spec fn hash_token(s: Seq<u8>, p: int) -> (TokenModel, int) {
    if spec_is_identifier(byte_at(s, p + 1)) || spec_is_valid_escape(
        byte_at(s, p + 1),
        byte_at(s, p + 2),
    ) {
        let e = ident_end(s, p + 1);
        (TokenModel::Hash(span(s, p, e)), e)
    } else {
        (TokenModel::Delim(span(s, p, p + 1)), p + 1)
    }
}

/// The at-keyword or delimiter token whose `@` stands at `p`.
pub open spec fn at_token(s: Seq<u8>, p: int) -> (TokenModel, int) {
    if spec_would_start_an_identifier(
        byte_at(s, p + 1),
        byte_at(s, p + 2),
        byte_at(s, p + 3),
    ) {
        let e = ident_end(s, p + 1);
        (TokenModel::AtKeyword(span(s, p, e)), e)
    } else {
        (TokenModel::Delim(span(s, p, p + 1)), p + 1)
    }
}

/// The token whose `<` stands at `p`: CDO when `!--` follows, a delimiter
/// otherwise.
pub open spec fn less_than_token(s: Seq<u8>, p: int) -> (TokenModel, int) {
    if byte_at(s, p + 1) == 0x21 && byte_at(s, p + 2) == 0x2D && byte_at(s, p + 3) == 0x2D {
        (TokenModel::CDO, p + 4)
    } else {
        (TokenModel::Delim(span(s, p, p + 1)), p + 1)
    }
}

/// The token whose `-` stands at `p`: a numeric token, CDC, an ident-like
/// token, or a delimiter, in that priority order.
pub open spec fn hyphen_token(s: Seq<u8>, p: int) -> (TokenModel, int) {
    let b1 = byte_at(s, p + 1);
    let b2 = byte_at(s, p + 2);
    if spec_would_start_a_number(byte_at(s, p), b1, b2) {
        numeric_token(s, p)
    } else if b1 == 0x2D && b2 == 0x3E {
        (TokenModel::CDC, p + 3)
    } else if spec_would_start_an_identifier(byte_at(s, p), b1, b2) {
        ident_like_token(s, p)
    } else {
        (TokenModel::Delim(span(s, p, p + 1)), p + 1)
    }
}

/// The token whose `+` stands at `p`: a numeric token or a delimiter.
pub open spec fn plus_token(s: Seq<u8>, p: int) -> (TokenModel, int) {
    if spec_would_start_a_number(byte_at(s, p), byte_at(s, p + 1), byte_at(s, p + 2)) {
        numeric_token(s, p)
    } else {
        (TokenModel::Delim(span(s, p, p + 1)), p + 1)
    }
}

/// The token whose `.` stands at `p`: a numeric token or a delimiter.
pub open spec fn full_stop_token(s: Seq<u8>, p: int) -> (TokenModel, int) {
    if spec_would_start_a_number(byte_at(s, p), byte_at(s, p + 1), byte_at(s, p + 2)) {
        numeric_token(s, p)
    } else {
        (TokenModel::Delim(span(s, p, p + 1)), p + 1)
    }
}

/// The token whose backslash stands at `p`: an ident-like token when the
/// backslash begins a valid escape, a delimiter otherwise.
pub open spec fn solidus_token(s: Seq<u8>, p: int) -> (TokenModel, int) {
    if spec_is_valid_escape(byte_at(s, p), byte_at(s, p + 1)) {
        ident_like_token(s, p)
    } else {
        (TokenModel::Delim(span(s, p, p + 1)), p + 1)
    }
}

/// The token produced by one call of the tokenizer at offset `p`, and the
/// offset at which the cursor then stands. At or past the end of the input
/// the call produces the terminal token and does not move.
pub open spec fn next_spec(s: Seq<u8>, p: int) -> (TokenModel, int) {
    if !(0 <= p && p < s.len()) {
        (TokenModel::EOF, p)
    } else {
        let c = s[p];
        if c == 0x2F && byte_at(s, p + 1) == 0x2A {
            comment_token(s, p)
        } else if spec_is_whitespace(c) {
            whitespace_token(s, p)
        } else if spec_is_digit(c) {
            numeric_token(s, p)
        } else if spec_is_identifier_start(c) {
            ident_like_token(s, p)
        } else if c == 0x22 || c == 0x27 {
            string_token(s, p)
        } else if c == 0x23 {
            hash_token(s, p)
        } else if c == 0x28 {
            (TokenModel::LeftParenthesis, p + 1)
        } else if c == 0x29 {
            (TokenModel::RightParenthesis, p + 1)
        } else if c == 0x2B {
            plus_token(s, p)
        } else if c == 0x2C {
            (TokenModel::Comma, p + 1)
        } else if c == 0x2D {
            hyphen_token(s, p)
        } else if c == 0x2E {
            full_stop_token(s, p)
        } else if c == 0x3A {
            (TokenModel::Colon, p + 1)
        } else if c == 0x3B {
            (TokenModel::Semicolon, p + 1)
        } else if c == 0x3C {
            less_than_token(s, p)
        } else if c == 0x40 {
            at_token(s, p)
        } else if c == 0x5B {
            (TokenModel::LeftSquareBracket, p + 1)
        } else if c == 0x5C {
            solidus_token(s, p)
        } else if c == 0x5D {
            (TokenModel::RightSquareBracket, p + 1)
        } else if c == 0x7B {
            (TokenModel::LeftCurlyBracket, p + 1)
        } else if c == 0x7D {
            (TokenModel::RightCurlyBracket, p + 1)
        } else {
            (TokenModel::Delim(span(s, p, p + 1)), p + 1)
        }
    }
}

pub proof fn lemma_ident_like_bounds(s: Seq<u8>, p: int)
    requires
        0 <= p <= s.len(),
    ensures
        p <= ident_like_token(s, p).1 <= s.len(),
{
    lemma_ident_end_bounds(s, p);
    let ie = ident_end(s, p);
    if is_url_lexeme(span(s, p, ie)) {
        let q1 = if byte_at(s, ie) == 0x28 {
            ie + 1
        } else {
            ie
        };
        lemma_ws_end_bounds(s, q1);
        let q2 = ws_end(s, q1);
        if !(byte_at(s, q2) == 0x22 || byte_at(s, q2) == 0x27) {
            lemma_ws_end_bounds(s, q2);
            lemma_url_scan_bounds(s, ws_end(s, q2));
        }
    }
}

/// A byte that moves the cursor one column to the right: neither a newline
/// nor a UTF-8 continuation byte.
pub open spec fn plain_byte(b: u8) -> bool {
    !spec_is_newline(b) && !spec_utf8_is_cont_byte(b)
}

/// The line/column update for consuming the byte at offset `i`: a newline
/// byte opens a new line — a CR directly before an LF defers to the LF, so a
/// CR LF pair opens one line, not two — and any other byte that is not a
/// UTF-8 continuation byte moves one column to the right.
pub open spec fn lc_step(s: Seq<u8>, i: int, line: int, col: int) -> (int, int) {
    let b = byte_at(s, i);
    if spec_is_newline(b) && !(b == 0x0D && byte_at(s, i + 1) == 0x0A) {
        (line + 1, 1)
    } else if !spec_utf8_is_cont_byte(b) {
        (line, col + 1)
    } else {
        (line, col)
    }
}

/// The line/column pair after consuming the bytes from offset `from` up to
/// offset `to`, starting from the pair `(line, col)`.
pub open spec fn lc_fold(s: Seq<u8>, from: int, to: int, line: int, col: int) -> (int, int)
    decreases to - from,
{
    if from < to {
        let r = lc_step(s, from, line, col);
        lc_fold(s, from + 1, to, r.0, r.1)
    } else {
        (line, col)
    }
}

/// Consuming a range of bytes in two legs updates the line and column as
/// consuming it whole does.
pub proof fn lemma_lc_fold_concat(s: Seq<u8>, a: int, b: int, c: int, line: int, col: int)
    requires
        a <= b <= c,
    ensures
        lc_fold(s, a, c, line, col) == lc_fold(
            s,
            b,
            c,
            lc_fold(s, a, b, line, col).0,
            lc_fold(s, a, b, line, col).1,
        ),
    decreases b - a,
{
    if a < b {
        let r = lc_step(s, a, line, col);
        lemma_lc_fold_concat(s, a + 1, b, c, r.0, r.1);
    }
}

/// Over bytes that each move the cursor one column to the right, the fold
/// leaves the line unchanged and adds the byte count to the column.
pub proof fn lemma_lc_fold_plain(s: Seq<u8>, a: int, b: int, line: int, col: int)
    requires
        a <= b,
        forall|i: int| a <= i < b ==> plain_byte(byte_at(s, i)),
    ensures
        lc_fold(s, a, b, line, col) == (line, col + (b - a)),
    decreases b - a,
{
    if a < b {
        assert(plain_byte(byte_at(s, a)));
        lemma_lc_fold_plain(s, a + 1, b, line, col + 1);
    }
}

/// Every call of the tokenizer on an offset inside the input strictly
/// advances the cursor, never moves it past the end of the input, and never
/// produces the terminal token there.
pub proof fn lemma_next_spec_progress(s: Seq<u8>, p: int)
    requires
        0 <= p < s.len(),
    ensures
        p < next_spec(s, p).1 <= s.len(),
        next_spec(s, p).0 != TokenModel::EOF,
{
    let c = s[p];
    if c == 0x2F && byte_at(s, p + 1) == 0x2A {
        lemma_comment_scan_bounds(s, p + 2);
    } else if spec_is_whitespace(c) {
        lemma_ws_end_bounds(s, p + 1);
    } else if spec_is_digit(c) {
        lemma_numeric_progress(s, p);
    } else if spec_is_identifier_start(c) {
        lemma_ident_like_progress(s, p);
    } else if c == 0x22 || c == 0x27 {
        lemma_string_scan_bounds(s, c, p + 1);
    } else if c == 0x23 {
        if spec_is_identifier(byte_at(s, p + 1)) || spec_is_valid_escape(
            byte_at(s, p + 1),
            byte_at(s, p + 2),
        ) {
            lemma_ident_end_bounds(s, p + 1);
        }
    } else if c == 0x2B || c == 0x2E {
        if spec_would_start_a_number(byte_at(s, p), byte_at(s, p + 1), byte_at(s, p + 2)) {
            lemma_numeric_progress(s, p);
        }
    } else if c == 0x2D {
        let b1 = byte_at(s, p + 1);
        let b2 = byte_at(s, p + 2);
        if spec_would_start_a_number(byte_at(s, p), b1, b2) {
            lemma_numeric_progress(s, p);
        } else if b1 == 0x2D && b2 == 0x3E {
        } else if spec_would_start_an_identifier(byte_at(s, p), b1, b2) {
            lemma_ident_like_progress(s, p);
        }
    } else if c == 0x3C {
    } else if c == 0x40 {
        if spec_would_start_an_identifier(byte_at(s, p + 1), byte_at(s, p + 2), byte_at(s, p + 3)) {
            lemma_ident_end_bounds(s, p + 1);
        }
    } else if c == 0x5C {
        if spec_is_valid_escape(byte_at(s, p), byte_at(s, p + 1)) {
            lemma_ident_like_progress(s, p);
        }
    }
}

/// A numeric token begun where three code points would start a number, or on
/// a digit, extends past its first byte.
proof fn lemma_numeric_progress(s: Seq<u8>, p: int)
    requires
        0 <= p < s.len(),
        spec_would_start_a_number(byte_at(s, p), byte_at(s, p + 1), byte_at(s, p + 2))
            || spec_is_digit(s[p]),
    ensures
        p < numeric_token(s, p).1 <= s.len(),
{
    let c = s[p];
    let q1 = if c == 0x2B || c == 0x2D {
        p + 1
    } else {
        p
    };
    lemma_digits_end_bounds(s, q1);
    let q2 = digits_end(s, q1);
    if q1 == p && spec_is_digit(c) {
        lemma_digits_end_bounds(s, p + 1);
    }
    let q3 = if byte_at(s, q2) == 0x2E {
        digits_end(s, q2 + 1)
    } else {
        q2
    };
    if byte_at(s, q2) == 0x2E {
        lemma_digits_end_bounds(s, q2 + 1);
    }
    assert(p + 1 <= q3 <= s.len());
    let ne = number_end(s, p);
    if byte_at(s, q3) == 0x45 || byte_at(s, q3) == 0x65 {
        let q4 = if byte_at(s, q3 + 1) == 0x2B || byte_at(s, q3 + 1) == 0x2D {
            q3 + 2
        } else {
            q3 + 1
        };
        lemma_digits_end_bounds(s, q4);
    }
    assert(p + 1 <= ne <= s.len());
    if spec_would_start_an_identifier(byte_at(s, ne), byte_at(s, ne + 1), byte_at(s, ne + 2)) {
        lemma_ident_end_bounds(s, ne);
    }
}

/// An ident-like token begun on an identifier-start byte, on a hyphen or on
/// a backslash extends past its first byte.
proof fn lemma_ident_like_progress(s: Seq<u8>, p: int)
    requires
        0 <= p < s.len(),
        spec_is_identifier(s[p]) || spec_is_valid_escape(s[p], byte_at(s, p + 1)),
    ensures
        p < ident_like_token(s, p).1 <= s.len(),
{
    lemma_ident_like_bounds(s, p);
    let ie = ident_end(s, p);
    if spec_is_identifier(s[p]) {
        lemma_ident_end_bounds(s, p + 1);
    } else {
        lemma_escaped_end_bounds(s, p);
        lemma_ident_end_bounds(s, escaped_end(s, p));
    }
    assert(ie >= p + 1);
    if is_url_lexeme(span(s, p, ie)) {
        let q1 = if byte_at(s, ie) == 0x28 {
            ie + 1
        } else {
            ie
        };
        lemma_ws_end_bounds(s, q1);
        let q2 = ws_end(s, q1);
        if !(byte_at(s, q2) == 0x22 || byte_at(s, q2) == 0x27) {
            lemma_ws_end_bounds(s, q2);
            lemma_url_scan_bounds(s, ws_end(s, q2));
        }
    }
}

} // verus!
