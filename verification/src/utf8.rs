//! UTF-8 structure, and the fact that the cursor respects it.
//!
//! The tokenizer is total over arbitrary bytes; nothing below is needed for
//! it to be safe. But when the input is well-formed UTF-8, the cursor is
//! meant never to stand inside a multi-byte encoding at the start or end of
//! a public call. This module defines structural well-formedness of UTF-8
//! and proves that one call of the tokenizer always leaves the cursor on a
//! scalar-value boundary of a well-formed input
//! ([`lemma_next_spec_boundary`]).

use vstd::prelude::*;

use crate::classify::{
    spec_is_digit, spec_is_identifier, spec_is_identifier_start, spec_is_newline,
    spec_is_non_printable, spec_is_valid_escape, spec_is_whitespace, spec_utf8_is_cont_byte,
    spec_would_start_a_number, spec_would_start_an_identifier,
};
use crate::model::{
    bad_url_end, bom_len, byte_at, comment_scan, digits_end, escaped_end, ident_end,
    ident_like_token, is_url_lexeme, lemma_escaped_end_bounds, lemma_ident_end_bounds,
    lemma_number_end_bounds, lemma_url_scan_bounds, lemma_ws_end_bounds, next_spec, number_end,
    numeric_token, span, string_scan, url_scan, url_token, ws_end,
};

verus! {

/// The length of the encoding that a byte opens as its lead byte: 1 for an
/// ASCII byte, 2 to 4 for the lead bytes of the multi-byte encodings, and 0
/// for a byte that opens no encoding (a continuation byte, or a byte value
/// UTF-8 never uses as a lead).
pub open spec fn utf8_seq_len(b: u8) -> int {
    if b < 0x80 {
        1
    } else if 0xC0 <= b && b < 0xE0 {
        2
    } else if 0xE0 <= b && b < 0xF0 {
        3
    } else if 0xF0 <= b && b < 0xF8 {
        4
    } else {
        0
    }
}

/// Structural well-formedness of UTF-8 from offset `p` on: the bytes divide
/// into encodings, each a lead byte followed by exactly its continuation
/// bytes. Overlong encodings and out-of-range scalar values are not policed
/// here; the cursor facts below do not depend on them.
pub open spec fn utf8_wf_at(s: Seq<u8>, p: int) -> bool
    decreases s.len() - p,
        when 0 <= p <= s.len()
{
    p == s.len() || {
        let l = utf8_seq_len(s[p]);
        &&& l >= 1
        &&& p + l <= s.len()
        &&& (forall|j: int| p < j < p + l ==> spec_utf8_is_cont_byte(#[trigger] s[j]))
        &&& utf8_wf_at(s, p + l)
    }
}

/// Whether the whole input is structurally well-formed UTF-8.
pub open spec fn utf8_well_formed(s: Seq<u8>) -> bool {
    utf8_wf_at(s, 0)
}

/// Whether offset `p` sits on a scalar-value boundary of `s`: at or past the
/// end of the input, or on a byte that is not a UTF-8 continuation byte.
pub open spec fn scalar_boundary(s: Seq<u8>, p: int) -> bool {
    p >= s.len() || !spec_utf8_is_cont_byte(byte_at(s, p))
}

proof fn lemma_walk(s: Seq<u8>, p: int, i: int)
    requires
        utf8_wf_at(s, p),
        0 <= p <= i < s.len(),
        s[i] < 0x80,
    ensures
        scalar_boundary(s, i + 1),
    decreases i - p,
{
    let l = utf8_seq_len(s[p]);
    if i < p + l {
        assert(i == p);
        assert(l == 1);
        assert(utf8_wf_at(s, p + 1));
        if p + 1 < s.len() {
            assert(utf8_seq_len(s[p + 1]) >= 1);
        }
    } else {
        lemma_walk(s, p + l, i);
    }
}

/// In well-formed UTF-8 a continuation byte never follows an ASCII byte:
/// directly after consuming an ASCII byte the cursor stands on a boundary.
pub proof fn lemma_after_ascii(s: Seq<u8>, i: int)
    requires
        utf8_well_formed(s),
        0 <= i < s.len(),
        s[i] < 0x80,
    ensures
        scalar_boundary(s, i + 1),
{
    lemma_walk(s, 0, i);
}

/// A well-formed input never begins with a continuation byte, and a leading
/// byte-order mark is a whole encoding: the offset the tokenizer starts at
/// is a boundary.
pub proof fn lemma_bom_boundary(s: Seq<u8>)
    requires
        utf8_well_formed(s),
    ensures
        scalar_boundary(s, bom_len(s)),
{
    if bom_len(s) == 3 {
        assert(utf8_seq_len(s[0]) == 3);
        assert(utf8_wf_at(s, 3));
    }
}

proof fn lemma_ident_end_boundary(s: Seq<u8>, p: int)
    requires
        0 <= p <= s.len(),
    ensures
        scalar_boundary(s, ident_end(s, p)),
    decreases s.len() - p,
{
    if p < s.len() {
        if spec_is_identifier(s[p]) {
            lemma_ident_end_boundary(s, p + 1);
        } else if spec_is_valid_escape(s[p], byte_at(s, p + 1)) {
            lemma_escaped_end_bounds(s, p);
            lemma_ident_end_boundary(s, escaped_end(s, p));
        }
    }
}

proof fn lemma_ws_end_boundary(s: Seq<u8>, p: int)
    requires
        utf8_well_formed(s),
        0 <= p <= s.len(),
        scalar_boundary(s, p),
    ensures
        scalar_boundary(s, ws_end(s, p)),
    decreases s.len() - p,
{
    if p < s.len() && spec_is_whitespace(byte_at(s, p)) {
        lemma_after_ascii(s, p);
        lemma_ws_end_boundary(s, p + 1);
    }
}

proof fn lemma_comment_scan_boundary(s: Seq<u8>, p: int)
    requires
        utf8_well_formed(s),
        0 <= p <= s.len(),
    ensures
        scalar_boundary(s, comment_scan(s, p)),
    decreases s.len() - p,
{
    if p < s.len() {
        if s[p] == 0x2A && byte_at(s, p + 1) == 0x2F {
            lemma_after_ascii(s, p + 1);
        } else {
            lemma_comment_scan_boundary(s, p + 1);
        }
    }
}

proof fn lemma_string_scan_boundary(s: Seq<u8>, q: u8, p: int)
    requires
        utf8_well_formed(s),
        0 <= p <= s.len(),
        q == 0x22 || q == 0x27,
    ensures
        scalar_boundary(s, string_scan(s, q, p).1),
    decreases s.len() - p,
{
    if p < s.len() {
        let b = s[p];
        if b == q {
            lemma_after_ascii(s, p);
        } else if spec_is_newline(b) {
        } else if b == 0x5C {
            if p + 1 >= s.len() {
            } else if spec_is_newline(s[p + 1]) {
                if s[p + 1] == 0x0D && byte_at(s, p + 2) == 0x0A {
                    lemma_string_scan_boundary(s, q, p + 3);
                } else {
                    lemma_string_scan_boundary(s, q, p + 2);
                }
            } else {
                lemma_escaped_end_bounds(s, p);
                lemma_string_scan_boundary(s, q, escaped_end(s, p));
            }
        } else {
            lemma_string_scan_boundary(s, q, p + 1);
        }
    }
}

proof fn lemma_bad_url_end_boundary(s: Seq<u8>, p: int)
    requires
        utf8_well_formed(s),
        0 <= p <= s.len(),
    ensures
        scalar_boundary(s, bad_url_end(s, p)),
    decreases s.len() - p,
{
    if p < s.len() && s[p] != 0x29 {
        if spec_is_valid_escape(s[p], byte_at(s, p + 1)) {
            lemma_escaped_end_bounds(s, p);
            lemma_bad_url_end_boundary(s, escaped_end(s, p));
        } else {
            lemma_bad_url_end_boundary(s, p + 1);
        }
    } else if p < s.len() {
        lemma_after_ascii(s, p);
    }
}

proof fn lemma_url_scan_boundary(s: Seq<u8>, p: int)
    requires
        utf8_well_formed(s),
        0 <= p <= s.len(),
    ensures
        scalar_boundary(s, url_scan(s, p).2),
    decreases s.len() - p,
{
    if p < s.len() {
        let b = s[p];
        if b == 0x29 {
            lemma_after_ascii(s, p);
        } else if spec_is_whitespace(b) {
            lemma_ws_end_bounds(s, p);
            lemma_ws_end_boundary(s, p);
            let w = ws_end(s, p);
            if w < s.len() && s[w] == 0x29 {
                lemma_after_ascii(s, w);
            } else if w < s.len() {
                lemma_bad_url_end_boundary(s, w);
            }
        } else if b == 0x22 || b == 0x27 || b == 0x28 || spec_is_non_printable(b) {
            lemma_bad_url_end_boundary(s, p);
        } else if b == 0x5C {
            if spec_is_valid_escape(b, byte_at(s, p + 1)) {
                lemma_escaped_end_bounds(s, p);
                lemma_url_scan_boundary(s, escaped_end(s, p));
            } else {
                lemma_bad_url_end_boundary(s, p);
            }
        } else {
            lemma_url_scan_boundary(s, p + 1);
        }
    }
}

proof fn lemma_numeric_token_boundary(s: Seq<u8>, p: int)
    requires
        utf8_well_formed(s),
        0 <= p <= s.len(),
    ensures
        scalar_boundary(s, numeric_token(s, p).1),
{
    lemma_number_end_bounds(s, p);
    let ne = number_end(s, p);
    if spec_would_start_an_identifier(byte_at(s, ne), byte_at(s, ne + 1), byte_at(s, ne + 2)) {
        lemma_ident_end_boundary(s, ne);
    } else if byte_at(s, ne) == 0x25 {
        lemma_after_ascii(s, ne);
    }
}

proof fn lemma_url_token_boundary(s: Seq<u8>, p: int)
    requires
        utf8_well_formed(s),
        0 <= p <= s.len(),
        scalar_boundary(s, p),
    ensures
        scalar_boundary(s, url_token(s, p).1),
{
    lemma_ws_end_bounds(s, p);
    lemma_ws_end_boundary(s, p);
    lemma_url_scan_bounds(s, ws_end(s, p));
    lemma_url_scan_boundary(s, ws_end(s, p));
}

proof fn lemma_ident_like_boundary(s: Seq<u8>, p: int)
    requires
        utf8_well_formed(s),
        0 <= p <= s.len(),
    ensures
        scalar_boundary(s, ident_like_token(s, p).1),
{
    lemma_ident_end_bounds(s, p);
    lemma_ident_end_boundary(s, p);
    let ie = ident_end(s, p);
    if is_url_lexeme(span(s, p, ie)) {
        let q1 = if byte_at(s, ie) == 0x28 {
            ie + 1
        } else {
            ie
        };
        if byte_at(s, ie) == 0x28 {
            lemma_after_ascii(s, ie);
        }
        lemma_ws_end_bounds(s, q1);
        lemma_ws_end_boundary(s, q1);
        let q2 = ws_end(s, q1);
        if !(byte_at(s, q2) == 0x22 || byte_at(s, q2) == 0x27) {
            lemma_url_token_boundary(s, q2);
        }
    } else if byte_at(s, ie) == 0x28 {
        lemma_after_ascii(s, ie);
    }
}

/// The cursor fact of the tokenizer: on a well-formed UTF-8 input, one call
/// of the tokenizer always leaves the cursor on a scalar-value boundary —
/// never inside a multi-byte encoding.
pub proof fn lemma_next_spec_boundary(s: Seq<u8>, p: int)
    requires
        utf8_well_formed(s),
        0 <= p < s.len(),
    ensures
        scalar_boundary(s, next_spec(s, p).1),
{
    let c = s[p];
    if c == 0x2F && byte_at(s, p + 1) == 0x2A {
        lemma_comment_scan_boundary(s, p + 2);
    } else if spec_is_whitespace(c) {
        lemma_ws_end_boundary(s, p);
    } else if spec_is_digit(c) {
        lemma_numeric_token_boundary(s, p);
    } else if spec_is_identifier_start(c) {
        lemma_ident_like_boundary(s, p);
    } else if c == 0x22 || c == 0x27 {
        lemma_string_scan_boundary(s, c, p + 1);
    } else if c == 0x23 {
        if spec_is_identifier(byte_at(s, p + 1)) || spec_is_valid_escape(
            byte_at(s, p + 1),
            byte_at(s, p + 2),
        ) {
            lemma_ident_end_boundary(s, p + 1);
        } else {
            lemma_after_ascii(s, p);
        }
    } else if c == 0x2B || c == 0x2E {
        if spec_would_start_a_number(byte_at(s, p), byte_at(s, p + 1), byte_at(s, p + 2)) {
            lemma_numeric_token_boundary(s, p);
        } else {
            lemma_after_ascii(s, p);
        }
    } else if c == 0x2D {
        let b1 = byte_at(s, p + 1);
        let b2 = byte_at(s, p + 2);
        if spec_would_start_a_number(byte_at(s, p), b1, b2) {
            lemma_numeric_token_boundary(s, p);
        } else if b1 == 0x2D && b2 == 0x3E {
            lemma_after_ascii(s, p + 2);
        } else if spec_would_start_an_identifier(byte_at(s, p), b1, b2) {
            lemma_ident_like_boundary(s, p);
        } else {
            lemma_after_ascii(s, p);
        }
    } else if c == 0x3C {
        if byte_at(s, p + 1) == 0x21 && byte_at(s, p + 2) == 0x2D && byte_at(s, p + 3) == 0x2D {
            lemma_after_ascii(s, p + 3);
        } else {
            lemma_after_ascii(s, p);
        }
    } else if c == 0x40 {
        if spec_would_start_an_identifier(byte_at(s, p + 1), byte_at(s, p + 2), byte_at(s, p + 3)) {
            lemma_ident_end_boundary(s, p + 1);
        } else {
            lemma_after_ascii(s, p);
        }
    } else if c == 0x5C {
        if spec_is_valid_escape(byte_at(s, p), byte_at(s, p + 1)) {
            lemma_ident_like_boundary(s, p);
        } else {
            lemma_after_ascii(s, p);
        }
    } else {
        lemma_after_ascii(s, p);
    }
}

} // verus!
