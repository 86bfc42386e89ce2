//! The laws of the token stream.
//!
//! These proof functions state, over the model in [`crate::model`], what the
//! stream of tokens as a whole obeys: the spans of consecutive calls tile
//! the input without gap or overlap and reconstruct it exactly, the stream
//! reaches the terminal token after finitely many calls, and a leading
//! byte-order mark changes no token. Stability at the end of the input —
//! once the terminal token is produced, further calls return it and move
//! nothing — is part of the contract of
//! [`crate::tokenizer::Tokenizer::next_token`] itself.

use vstd::prelude::*;

use crate::model::{
    bad_url_end, bom_len, byte_at, comment_scan, digits_end, escaped_end, hex_run_end, ident_end,
    lemma_escaped_end_bounds, lemma_next_spec_progress, next_spec, number_end, span, string_scan,
    url_scan, ws_end,
};
use crate::token::TokenModel;

verus! {

/// The offset at which the cursor stands after `n` calls of the tokenizer,
/// starting from offset `p0`.
pub open spec fn nth_pos(s: Seq<u8>, p0: int, n: nat) -> int
    decreases n,
{
    if n == 0 {
        p0
    } else {
        let q = nth_pos(s, p0, (n - 1) as nat);
        if q >= s.len() {
            q
        } else {
            next_spec(s, q).1
        }
    }
}

/// The token produced by call `n` of the tokenizer (counting from 0),
/// starting from offset `p0`.
pub open spec fn nth_token(s: Seq<u8>, p0: int, n: nat) -> TokenModel {
    next_spec(s, nth_pos(s, p0, n)).0
}

/// The concatenation of the spans consumed by the first `n` calls of the
/// tokenizer, starting from offset `p0`.
pub open spec fn spans_concat(s: Seq<u8>, p0: int, n: nat) -> Seq<u8>
    decreases n,
{
    if n == 0 {
        Seq::empty()
    } else {
        spans_concat(s, p0, (n - 1) as nat) + span(
            s,
            nth_pos(s, p0, (n - 1) as nat),
            nth_pos(s, p0, n),
        )
    }
}

/// The cursor never leaves the input and never moves backward over the
/// calls of the tokenizer.
pub proof fn lemma_nth_pos_bounds(s: Seq<u8>, p0: int, n: nat)
    requires
        0 <= p0 <= s.len(),
    ensures
        p0 <= nth_pos(s, p0, n) <= s.len(),
    decreases n,
{
    if n > 0 {
        lemma_nth_pos_bounds(s, p0, (n - 1) as nat);
        let q = nth_pos(s, p0, (n - 1) as nat);
        if q < s.len() {
            lemma_next_spec_progress(s, q);
        }
    }
}

/// Until the cursor reaches the end of the input, every call advances it by
/// at least one byte.
pub proof fn lemma_nth_pos_advances(s: Seq<u8>, p0: int, n: nat)
    requires
        0 <= p0 <= s.len(),
    ensures
        nth_pos(s, p0, n) >= p0 + n || nth_pos(s, p0, n) == s.len(),
    decreases n,
{
    if n > 0 {
        lemma_nth_pos_advances(s, p0, (n - 1) as nat);
        lemma_nth_pos_bounds(s, p0, (n - 1) as nat);
        let q = nth_pos(s, p0, (n - 1) as nat);
        if q < s.len() {
            lemma_next_spec_progress(s, q);
        }
    }
}

/// Termination: a run of at least as many calls as there are bytes left
/// brings the cursor to the end of the input, where every further call
/// produces the terminal token. Together with
/// [`lemma_next_spec_progress`], which gives that each single call before
/// that strictly advances the cursor, the number of non-terminal tokens any
/// input yields is finite.
pub proof fn lemma_tokenization_terminates(s: Seq<u8>, p0: int, n: nat)
    requires
        0 <= p0 <= s.len(),
        n >= s.len() - p0,
    ensures
        nth_pos(s, p0, n) == s.len(),
        nth_token(s, p0, n) == TokenModel::EOF,
{
    lemma_nth_pos_bounds(s, p0, n);
    lemma_nth_pos_advances(s, p0, n);
}

/// Coverage without gap: the spans consumed by the first `n` calls of the
/// tokenizer, concatenated in order, are exactly the bytes of the input
/// from the starting offset to the offset the cursor has reached — no byte
/// is skipped and none is consumed twice.
pub proof fn lemma_spans_tile_input(s: Seq<u8>, p0: int, n: nat)
    requires
        0 <= p0 <= s.len(),
    ensures
        spans_concat(s, p0, n) == span(s, p0, nth_pos(s, p0, n)),
    decreases n,
{
    if n == 0 {
        assert(spans_concat(s, p0, n) =~= span(s, p0, p0));
    } else {
        lemma_spans_tile_input(s, p0, (n - 1) as nat);
        lemma_nth_pos_bounds(s, p0, (n - 1) as nat);
        lemma_nth_pos_bounds(s, p0, n);
        let q = nth_pos(s, p0, (n - 1) as nat);
        let r = nth_pos(s, p0, n);
        if q < s.len() {
            lemma_next_spec_progress(s, q);
        }
        assert(span(s, p0, q) + span(s, q, r) =~= span(s, p0, r));
    }
}

/// Coverage of the whole input: once enough calls have been made to reach
/// the end of the input, concatenating the spans of all tokens returned
/// reconstructs the input from the starting offset exactly; the terminal
/// token itself contributes an empty span at the end of the input.
pub proof fn lemma_spans_reconstruct_input(s: Seq<u8>, n: nat)
    requires
        n >= s.len(),
    ensures
        spans_concat(s, 0, n) == s,
{
    lemma_spans_tile_input(s, 0, n);
    lemma_tokenization_terminates(s, 0, n);
    assert(span(s, 0, s.len() as int) =~= s);
}

/// The UTF-8 byte-order mark.
pub open spec fn bom_mark() -> Seq<u8> {
    seq![0xEFu8, 0xBBu8, 0xBFu8]
}

proof fn lemma_byte_at_shift(t: Seq<u8>, s: Seq<u8>, i: int)
    requires
        0 <= i,
    ensures
        byte_at(t + s, t.len() + i) == byte_at(s, i),
{
}

proof fn lemma_span_shift(t: Seq<u8>, s: Seq<u8>, a: int, b: int)
    requires
        0 <= a <= b <= s.len(),
    ensures
        span(t + s, t.len() + a, t.len() + b) == span(s, a, b),
{
    assert(span(t + s, t.len() + a, t.len() + b) =~= span(s, a, b));
}

proof fn lemma_ws_end_shift(t: Seq<u8>, s: Seq<u8>, p: int)
    requires
        0 <= p <= s.len(),
    ensures
        ws_end(t + s, t.len() + p) == t.len() + ws_end(s, p),
    decreases s.len() - p,
{
    lemma_byte_at_shift(t, s, p);
    if p < s.len() && crate::classify::spec_is_whitespace(byte_at(s, p)) {
        lemma_ws_end_shift(t, s, p + 1);
    }
}

proof fn lemma_digits_end_shift(t: Seq<u8>, s: Seq<u8>, p: int)
    requires
        0 <= p <= s.len(),
    ensures
        digits_end(t + s, t.len() + p) == t.len() + digits_end(s, p),
    decreases s.len() - p,
{
    lemma_byte_at_shift(t, s, p);
    if p < s.len() && crate::classify::spec_is_digit(byte_at(s, p)) {
        lemma_digits_end_shift(t, s, p + 1);
    }
}

proof fn lemma_hex_run_end_shift(t: Seq<u8>, s: Seq<u8>, p: int, k: nat)
    requires
        0 <= p <= s.len(),
    ensures
        hex_run_end(t + s, t.len() + p, k) == t.len() + hex_run_end(s, p, k),
    decreases k,
{
    lemma_byte_at_shift(t, s, p);
    if k > 0 && p < s.len() && crate::classify::spec_is_hex_digit(byte_at(s, p)) {
        lemma_hex_run_end_shift(t, s, p + 1, (k - 1) as nat);
    }
}

proof fn lemma_escaped_end_shift(t: Seq<u8>, s: Seq<u8>, p: int)
    requires
        0 <= p <= s.len(),
    ensures
        escaped_end(t + s, t.len() + p) == t.len() + escaped_end(s, p),
{
    if p + 1 < s.len() {
        if crate::classify::spec_is_hex_digit(s[p + 1]) {
            lemma_hex_run_end_shift(t, s, p + 2, 5);
            crate::model::lemma_hex_run_end_bounds(s, p + 2, 5);
            let h = hex_run_end(s, p + 2, 5);
            lemma_byte_at_shift(t, s, h + 1);
        }
    }
}

proof fn lemma_ident_end_shift(t: Seq<u8>, s: Seq<u8>, p: int)
    requires
        0 <= p <= s.len(),
    ensures
        ident_end(t + s, t.len() + p) == t.len() + ident_end(s, p),
    decreases s.len() - p,
{
    if p < s.len() {
        lemma_byte_at_shift(t, s, p + 1);
        if crate::classify::spec_is_identifier(s[p]) {
            lemma_ident_end_shift(t, s, p + 1);
        } else if crate::classify::spec_is_valid_escape(s[p], byte_at(s, p + 1)) {
            lemma_escaped_end_shift(t, s, p);
            lemma_escaped_end_bounds(s, p);
            lemma_ident_end_shift(t, s, escaped_end(s, p));
        }
    }
}

proof fn lemma_comment_scan_shift(t: Seq<u8>, s: Seq<u8>, p: int)
    requires
        0 <= p <= s.len(),
    ensures
        comment_scan(t + s, t.len() + p) == t.len() + comment_scan(s, p),
    decreases s.len() - p,
{
    if p < s.len() {
        lemma_byte_at_shift(t, s, p + 1);
        if !(s[p] == 0x2A && byte_at(s, p + 1) == 0x2F) {
            lemma_comment_scan_shift(t, s, p + 1);
        }
    }
}

proof fn lemma_string_scan_shift(t: Seq<u8>, s: Seq<u8>, q: u8, p: int)
    requires
        0 <= p <= s.len(),
    ensures
        string_scan(t + s, q, t.len() + p).0 == string_scan(s, q, p).0,
        string_scan(t + s, q, t.len() + p).1 == t.len() + string_scan(s, q, p).1,
    decreases s.len() - p,
{
    if p < s.len() {
        let b = s[p];
        lemma_byte_at_shift(t, s, p + 2);
        if b == q || crate::classify::spec_is_newline(b) {
        } else if b == 0x5C {
            if p + 1 >= s.len() {
            } else if crate::classify::spec_is_newline(s[p + 1]) {
                if s[p + 1] == 0x0D && byte_at(s, p + 2) == 0x0A {
                    lemma_string_scan_shift(t, s, q, p + 3);
                } else {
                    lemma_string_scan_shift(t, s, q, p + 2);
                }
            } else {
                lemma_escaped_end_shift(t, s, p);
                lemma_escaped_end_bounds(s, p);
                lemma_string_scan_shift(t, s, q, escaped_end(s, p));
            }
        } else {
            lemma_string_scan_shift(t, s, q, p + 1);
        }
    }
}

proof fn lemma_bad_url_end_shift(t: Seq<u8>, s: Seq<u8>, p: int)
    requires
        0 <= p <= s.len(),
    ensures
        bad_url_end(t + s, t.len() + p) == t.len() + bad_url_end(s, p),
    decreases s.len() - p,
{
    if p < s.len() && s[p] != 0x29 {
        lemma_byte_at_shift(t, s, p + 1);
        if crate::classify::spec_is_valid_escape(s[p], byte_at(s, p + 1)) {
            lemma_escaped_end_shift(t, s, p);
            lemma_escaped_end_bounds(s, p);
            lemma_bad_url_end_shift(t, s, escaped_end(s, p));
        } else {
            lemma_bad_url_end_shift(t, s, p + 1);
        }
    }
}

proof fn lemma_url_scan_shift(t: Seq<u8>, s: Seq<u8>, p: int)
    requires
        0 <= p <= s.len(),
    ensures
        url_scan(t + s, t.len() + p).0 == url_scan(s, p).0,
        url_scan(t + s, t.len() + p).1 == t.len() + url_scan(s, p).1,
        url_scan(t + s, t.len() + p).2 == t.len() + url_scan(s, p).2,
    decreases s.len() - p,
{
    if p < s.len() {
        let b = s[p];
        lemma_byte_at_shift(t, s, p + 1);
        if b == 0x29 {
        } else if crate::classify::spec_is_whitespace(b) {
            lemma_ws_end_shift(t, s, p);
            crate::model::lemma_ws_end_bounds(s, p);
            let w = ws_end(s, p);
            if w < s.len() && s[w] != 0x29 {
                lemma_bad_url_end_shift(t, s, w);
            }
        } else if b == 0x22 || b == 0x27 || b == 0x28 || crate::classify::spec_is_non_printable(
            b,
        ) {
            lemma_bad_url_end_shift(t, s, p);
        } else if b == 0x5C {
            if crate::classify::spec_is_valid_escape(b, byte_at(s, p + 1)) {
                lemma_escaped_end_shift(t, s, p);
                lemma_escaped_end_bounds(s, p);
                lemma_url_scan_shift(t, s, escaped_end(s, p));
            } else {
                lemma_bad_url_end_shift(t, s, p);
            }
        } else {
            lemma_url_scan_shift(t, s, p + 1);
        }
    }
}

proof fn lemma_number_end_shift(t: Seq<u8>, s: Seq<u8>, p: int)
    requires
        0 <= p <= s.len(),
    ensures
        number_end(t + s, t.len() + p) == t.len() + number_end(s, p),
{
    lemma_byte_at_shift(t, s, p);
    let q1 = if byte_at(s, p) == 0x2B || byte_at(s, p) == 0x2D {
        p + 1
    } else {
        p
    };
    lemma_digits_end_shift(t, s, q1);
    crate::model::lemma_digits_end_bounds(s, q1);
    let q2 = digits_end(s, q1);
    lemma_byte_at_shift(t, s, q2);
    let q3 = if byte_at(s, q2) == 0x2E {
        lemma_digits_end_shift(t, s, q2 + 1);
        crate::model::lemma_digits_end_bounds(s, q2 + 1);
        digits_end(s, q2 + 1)
    } else {
        q2
    };
    lemma_byte_at_shift(t, s, q3);
    lemma_byte_at_shift(t, s, q3 + 1);
    if byte_at(s, q3) == 0x45 || byte_at(s, q3) == 0x65 {
        let q4 = if byte_at(s, q3 + 1) == 0x2B || byte_at(s, q3 + 1) == 0x2D {
            q3 + 2
        } else {
            q3 + 1
        };
        lemma_digits_end_shift(t, s, q4);
    }
}

proof fn lemma_numeric_token_shift(t: Seq<u8>, s: Seq<u8>, p: int)
    requires
        0 <= p <= s.len(),
    ensures
        crate::model::numeric_token(t + s, t.len() + p).0 == crate::model::numeric_token(s, p).0,
        crate::model::numeric_token(t + s, t.len() + p).1 == t.len() + crate::model::numeric_token(
            s,
            p,
        ).1,
{
    lemma_number_end_shift(t, s, p);
    crate::model::lemma_number_end_bounds(s, p);
    let ne = number_end(s, p);
    lemma_byte_at_shift(t, s, ne);
    lemma_byte_at_shift(t, s, ne + 1);
    lemma_byte_at_shift(t, s, ne + 2);
    if crate::classify::spec_would_start_an_identifier(
        byte_at(s, ne),
        byte_at(s, ne + 1),
        byte_at(s, ne + 2),
    ) {
        lemma_ident_end_shift(t, s, ne);
        crate::model::lemma_ident_end_bounds(s, ne);
        lemma_span_shift(t, s, p, ident_end(s, ne));
    } else if byte_at(s, ne) == 0x25 {
        lemma_span_shift(t, s, p, ne + 1);
    } else {
        lemma_span_shift(t, s, p, ne);
    }
}

proof fn lemma_url_token_shift(t: Seq<u8>, s: Seq<u8>, p: int)
    requires
        0 <= p <= s.len(),
    ensures
        crate::model::url_token(t + s, t.len() + p).0 == crate::model::url_token(s, p).0,
        crate::model::url_token(t + s, t.len() + p).1 == t.len() + crate::model::url_token(s, p).1,
{
    lemma_ws_end_shift(t, s, p);
    crate::model::lemma_ws_end_bounds(s, p);
    let q = ws_end(s, p);
    lemma_url_scan_shift(t, s, q);
    crate::model::lemma_url_scan_bounds(s, q);
    let r = url_scan(s, q);
    if r.0 {
        lemma_span_shift(t, s, q, r.2);
    } else {
        lemma_span_shift(t, s, q, r.1);
    }
}

proof fn lemma_ident_like_token_shift(t: Seq<u8>, s: Seq<u8>, p: int)
    requires
        0 <= p <= s.len(),
    ensures
        crate::model::ident_like_token(t + s, t.len() + p).0 == crate::model::ident_like_token(
            s,
            p,
        ).0,
        crate::model::ident_like_token(t + s, t.len() + p).1 == t.len()
            + crate::model::ident_like_token(s, p).1,
{
    lemma_ident_end_shift(t, s, p);
    crate::model::lemma_ident_end_bounds(s, p);
    let ie = ident_end(s, p);
    lemma_span_shift(t, s, p, ie);
    lemma_byte_at_shift(t, s, ie);
    if crate::model::is_url_lexeme(span(s, p, ie)) {
        let q1 = if byte_at(s, ie) == 0x28 {
            ie + 1
        } else {
            ie
        };
        lemma_ws_end_shift(t, s, q1);
        crate::model::lemma_ws_end_bounds(s, q1);
        let q2 = ws_end(s, q1);
        lemma_byte_at_shift(t, s, q2);
        if !(byte_at(s, q2) == 0x22 || byte_at(s, q2) == 0x27) {
            lemma_url_token_shift(t, s, q2);
        }
    } else if byte_at(s, ie) == 0x28 {
    }
}

/// One call of the tokenizer behaves the same at the same distance from the
/// end of the input whatever bytes stand before the offset it is called at.
proof fn lemma_next_spec_shift(t: Seq<u8>, s: Seq<u8>, p: int)
    requires
        0 <= p <= s.len(),
    ensures
        next_spec(t + s, t.len() + p).0 == next_spec(s, p).0,
        next_spec(t + s, t.len() + p).1 == t.len() + next_spec(s, p).1,
{
    if p < s.len() {
        let c = s[p];
        lemma_byte_at_shift(t, s, p + 1);
        lemma_byte_at_shift(t, s, p + 2);
        lemma_byte_at_shift(t, s, p + 3);
        lemma_span_shift(t, s, p, p + 1);
        if c == 0x2F && byte_at(s, p + 1) == 0x2A {
            lemma_comment_scan_shift(t, s, p + 2);
            crate::model::lemma_comment_scan_bounds(s, p + 2);
            lemma_span_shift(t, s, p, comment_scan(s, p + 2));
        } else if crate::classify::spec_is_whitespace(c) {
            lemma_ws_end_shift(t, s, p);
            crate::model::lemma_ws_end_bounds(s, p);
            lemma_span_shift(t, s, p, ws_end(s, p));
        } else if crate::classify::spec_is_digit(c) {
            lemma_numeric_token_shift(t, s, p);
        } else if crate::classify::spec_is_identifier_start(c) {
            lemma_ident_like_token_shift(t, s, p);
        } else if c == 0x22 || c == 0x27 {
            lemma_string_scan_shift(t, s, c, p + 1);
            crate::model::lemma_string_scan_bounds(s, c, p + 1);
            lemma_span_shift(t, s, p, string_scan(s, c, p + 1).1);
        } else if c == 0x23 {
            if crate::classify::spec_is_identifier(byte_at(s, p + 1))
                || crate::classify::spec_is_valid_escape(byte_at(s, p + 1), byte_at(s, p + 2)) {
                lemma_ident_end_shift(t, s, p + 1);
                crate::model::lemma_ident_end_bounds(s, p + 1);
                lemma_span_shift(t, s, p, ident_end(s, p + 1));
            }
        } else if c == 0x2B || c == 0x2E {
            if crate::classify::spec_would_start_a_number(
                byte_at(s, p),
                byte_at(s, p + 1),
                byte_at(s, p + 2),
            ) {
                lemma_numeric_token_shift(t, s, p);
            }
        } else if c == 0x2D {
            if crate::classify::spec_would_start_a_number(
                byte_at(s, p),
                byte_at(s, p + 1),
                byte_at(s, p + 2),
            ) {
                lemma_numeric_token_shift(t, s, p);
            } else if byte_at(s, p + 1) == 0x2D && byte_at(s, p + 2) == 0x3E {
            } else if crate::classify::spec_would_start_an_identifier(
                byte_at(s, p),
                byte_at(s, p + 1),
                byte_at(s, p + 2),
            ) {
                lemma_ident_like_token_shift(t, s, p);
            }
        } else if c == 0x40 {
            if crate::classify::spec_would_start_an_identifier(
                byte_at(s, p + 1),
                byte_at(s, p + 2),
                byte_at(s, p + 3),
            ) {
                lemma_ident_end_shift(t, s, p + 1);
                crate::model::lemma_ident_end_bounds(s, p + 1);
                lemma_span_shift(t, s, p, ident_end(s, p + 1));
            }
        } else if c == 0x5C {
            if crate::classify::spec_is_valid_escape(byte_at(s, p), byte_at(s, p + 1)) {
                lemma_ident_like_token_shift(t, s, p);
            }
        }
    }
}

/// The shift of a whole run of calls: over any added prefix, call `n`
/// produces the same token and leaves the cursor at the same distance into
/// the suffix.
proof fn lemma_nth_shift(t: Seq<u8>, s: Seq<u8>, p0: int, n: nat)
    requires
        0 <= p0 <= s.len(),
    ensures
        nth_pos(t + s, t.len() + p0, n) == t.len() + nth_pos(s, p0, n),
        nth_token(t + s, t.len() + p0, n) == nth_token(s, p0, n),
    decreases n,
{
    lemma_nth_pos_bounds(s, p0, n);
    if n == 0 {
        lemma_next_spec_shift(t, s, p0);
    } else {
        lemma_nth_shift(t, s, p0, (n - 1) as nat);
        lemma_nth_pos_bounds(s, p0, (n - 1) as nat);
        let q = nth_pos(s, p0, (n - 1) as nat);
        lemma_next_spec_shift(t, s, q);
        lemma_next_spec_shift(t, s, nth_pos(s, p0, n));
        if q < s.len() {
            lemma_next_spec_progress(s, q);
        }
    }
}

/// Byte-order-mark transparency: an input that begins with the UTF-8
/// byte-order mark yields, call for call, exactly the tokens that the same
/// input without the mark yields — provided the bare input does not itself
/// begin with such a mark. The starting offsets are the ones
/// [`crate::tokenizer::Tokenizer::new`] chooses for each input.
pub proof fn lemma_bom_transparent(s: Seq<u8>, n: nat)
    requires
        bom_len(s) == 0,
    ensures
        bom_len(bom_mark() + s) == 3,
        nth_token(bom_mark() + s, bom_len(bom_mark() + s), n) == nth_token(s, bom_len(s), n),
        nth_pos(bom_mark() + s, bom_len(bom_mark() + s), n) == 3 + nth_pos(s, bom_len(s), n),
{
    let t = bom_mark();
    assert((t + s).len() >= 3);
    assert((t + s)[0] == 0xEF && (t + s)[1] == 0xBB && (t + s)[2] == 0xBF);
    lemma_nth_shift(t, s, 0, n);
}

} // verus!
