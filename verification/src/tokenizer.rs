//! The tokenizer: a single-pass cursor over an input buffer that produces
//! one token per call.
//!
//! Each call of [`Tokenizer::next_token`] dispatches on the byte under the
//! cursor and hands the scan to one of the sub-consumers below. The contract
//! of every method pins its behaviour to the mathematical model in
//! [`crate::model`]: the token returned, the offset the cursor reaches, and
//! the line/column bookkeeping are all stated exactly.

use vstd::prelude::*;

use crate::classify::{
    is_digit, is_hex_digit, is_identifier, is_identifier_start, is_newline, is_non_printable,
    is_valid_escape, is_whitespace, utf8_is_cont_byte, would_start_a_number,
    would_start_an_identifier,
};
use crate::model::{
    at_token, bad_url_end, bom_len, byte_at, comment_scan, comment_token, digits_end, escaped_end,
    full_stop_token, hash_token, hex_run_end, hyphen_token, ident_end, ident_like_token,
    is_url_lexeme, lc_fold, less_than_token, lemma_escaped_end_bounds, lemma_lc_fold_concat, lemma_lc_fold_plain, lemma_next_spec_progress, next_spec, number_end,
    numeric_token, plain_byte, plus_token, solidus_token, span, string_scan, string_token,
    url_scan, url_token, whitespace_token, ws_end,
};
use crate::token::{Token, TokenModel};
use crate::utf8::{lemma_bom_boundary, lemma_next_spec_boundary, scalar_boundary, utf8_well_formed};

verus! {

/// The tokenizer state: the input buffer, the cursor (`position`), the start
/// offset of the token being built (`offset`), and the 1-based line and
/// column of the cursor.
pub struct Tokenizer {
    pub input: Vec<u8>,
    pub position: usize,
    pub offset: usize,
    pub line: usize,
    pub column: usize,
}

impl Tokenizer {
    /// Well-formedness: the cursor stays inside the buffer, the token start
    /// offset never passes the cursor, and the 1-based counters stay within
    /// the bytes consumed so far. The small headroom over the buffer length
    /// keeps every cursor computation inside the machine word.
    pub open spec fn wf(self) -> bool {
        &&& self.input@.len() + 8 <= usize::MAX
        &&& self.position <= self.input@.len()
        &&& self.offset <= self.position
        &&& 1 <= self.line <= self.position + 1
        &&& 1 <= self.column <= self.position + 1
    }

    /// The cursor invariant for UTF-8 inputs: when the input is well-formed
    /// UTF-8, the cursor and the token start offset both sit on scalar-value
    /// boundaries — never inside a multi-byte encoding. [`Tokenizer::new`]
    /// establishes this and every call of [`Tokenizer::next_token`]
    /// preserves it; over arbitrary bytes it asks nothing.
    pub open spec fn at_scalar_boundaries(self) -> bool {
        utf8_well_formed(self.input@) ==> {
            &&& scalar_boundary(self.input@, self.position as int)
            &&& scalar_boundary(self.input@, self.offset as int)
        }
    }

    /// Builds a tokenizer over `input`, skipping a leading UTF-8 byte-order
    /// mark if one stands there.
    pub fn new(input: Vec<u8>) -> (t: Tokenizer)
        requires
            input@.len() + 8 <= usize::MAX,
        ensures
            t.wf(),
            t.input@ == input@,
            t.position == bom_len(input@),
            t.offset == bom_len(input@),
            t.line == 1,
            t.column == 1,
            t.at_scalar_boundaries(),
    {
        let position: usize = if input.len() >= 3 && input[0] == 0xEF && input[1] == 0xBB
            && input[2] == 0xBF {
            3
        } else {
            0
        };
        proof {
            if utf8_well_formed(input@) {
                lemma_bom_boundary(input@);
            }
        }
        Tokenizer { input, position, offset: position, line: 1, column: 1 }
    }

    /// Whether the cursor stands at or past the end of the input.
    fn is_eof(&self) -> (r: bool)
        ensures
            r == (self.position >= self.input@.len()),
    {
        self.position >= self.input.len()
    }

    /// The byte under the cursor.
    fn byte(&self) -> (r: u8)
        requires
            self.position < self.input@.len(),
        ensures
            r == self.input@[self.position as int],
    {
        self.input[self.position]
    }

    /// The byte `idx` places past the cursor, or the sentinel 0 past the end
    /// of the input.
    fn next(&self, idx: usize) -> (r: u8)
        requires
            self.wf(),
            idx <= 4,
        ensures
            r == byte_at(self.input@, self.position + idx),
    {
        let pos = self.position + idx;
        if pos >= self.input.len() {
            0
        } else {
            self.input[pos]
        }
    }

    /// The fast advance: moves the cursor `step` bytes, each known to move
    /// the cursor one column to the right.
    fn advance(&mut self, step: usize)
        requires
            old(self).wf(),
            old(self).position + step <= old(self).input@.len(),
            forall|i: int|
                old(self).position <= i < old(self).position + step ==> plain_byte(
                    byte_at(old(self).input@, i),
                ),
        ensures
            final(self).wf(),
            final(self).input@ == old(self).input@,
            final(self).offset == old(self).offset,
            final(self).position == old(self).position + step,
            (final(self).line as int, final(self).column as int) == lc_fold(
                final(self).input@,
                old(self).position as int,
                final(self).position as int,
                old(self).line as int,
                old(self).column as int,
            ),
    {
        proof {
            lemma_lc_fold_plain(
                self.input@,
                self.position as int,
                self.position + step,
                self.line as int,
                self.column as int,
            );
        }
        self.position = self.position + step;
        self.column = self.column + step;
    }

    /// The newline-aware advance: moves the cursor `step` bytes, opening a
    /// new line on each newline byte — one line for a CR LF pair — and
    /// moving one column for every byte that is not a UTF-8 continuation
    /// byte.
    fn advance_update(&mut self, step: usize)
        requires
            old(self).wf(),
            old(self).position + step <= old(self).input@.len(),
        ensures
            final(self).wf(),
            final(self).input@ == old(self).input@,
            final(self).offset == old(self).offset,
            final(self).position == old(self).position + step,
            (final(self).line as int, final(self).column as int) == lc_fold(
                final(self).input@,
                old(self).position as int,
                final(self).position as int,
                old(self).line as int,
                old(self).column as int,
            ),
    {
        let ghost s = self.input@;
        let ghost p0 = old(self).position as int;
        let ghost l0 = old(self).line as int;
        let ghost c0 = old(self).column as int;
        let mut i: usize = 0;
        while i < step
            invariant
                self.wf(),
                i <= step,
                self.input@ == s,
                self.offset == old(self).offset,
                self.position == p0 + i,
                p0 + step <= s.len(),
                (self.line as int, self.column as int) == lc_fold(
                    s,
                    p0,
                    self.position as int,
                    l0,
                    c0,
                ),
            decreases step - i,
        {
            let b = self.input[self.position];
            let nxt = if self.position + 1 < self.input.len() {
                self.input[self.position + 1]
            } else {
                0
            };
            proof {
                reveal_with_fuel(lc_fold, 2);
                lemma_lc_fold_concat(s, p0, self.position as int, self.position + 1, l0, c0);
            }
            if is_newline(b) && !(b == 0x0D && nxt == 0x0A) {
                self.line = self.line + 1;
                self.column = 1;
            } else if !utf8_is_cont_byte(b) {
                self.column = self.column + 1;
            }
            self.position = self.position + 1;
            i = i + 1;
        }
    }

    /// The bytes of the input from offset `a` inclusive to `b` exclusive,
    /// copied out of the buffer.
    fn slice_range(&self, a: usize, b: usize) -> (r: Vec<u8>)
        requires
            a <= b,
            b <= self.input@.len(),
        ensures
            r@ == span(self.input@, a as int, b as int),
    {
        let mut r: Vec<u8> = Vec::new();
        let mut i = a;
        while i < b
            invariant
                a <= i <= b,
                b <= self.input@.len(),
                r@ == span(self.input@, a as int, i as int),
            decreases b - i,
        {
            let byte = self.input[i];
            r.push(byte);
            proof {
                assert(span(self.input@, a as int, i + 1) =~= span(
                    self.input@,
                    a as int,
                    i as int,
                ).push(self.input@[i as int]));
            }
            i = i + 1;
        }
        r
    }

    /// The bytes of the input from offset `pos` up to the cursor, copied out
    /// of the buffer.
    fn slice_str_pos(&self, pos: usize) -> (r: Vec<u8>)
        requires
            pos <= self.position,
            self.position <= self.input@.len(),
        ensures
            r@ == span(self.input@, pos as int, self.position as int),
    {
        self.slice_range(pos, self.position)
    }

    /// The bytes of the token being built: from its start offset up to the
    /// cursor.
    fn slice_str(&self) -> (r: Vec<u8>)
        requires
            self.offset <= self.position,
            self.position <= self.input@.len(),
        ensures
            r@ == span(self.input@, self.offset as int, self.position as int),
    {
        self.slice_str_pos(self.offset)
    }

    /// Moves the cursor to the first byte that is not whitespace, or to the
    /// end of the input.
    fn advance_to_whitespace_end(&mut self)
        requires
            old(self).wf(),
        ensures
            final(self).wf(),
            final(self).input@ == old(self).input@,
            final(self).offset == old(self).offset,
            old(self).position <= final(self).position,
            final(self).position == ws_end(old(self).input@, old(self).position as int),
            (final(self).line as int, final(self).column as int) == lc_fold(
                final(self).input@,
                old(self).position as int,
                final(self).position as int,
                old(self).line as int,
                old(self).column as int,
            ),
    {
        let ghost s = self.input@;
        let ghost p0 = old(self).position as int;
        let ghost l0 = old(self).line as int;
        let ghost c0 = old(self).column as int;
        while !self.is_eof() && is_whitespace(self.byte())
            invariant
                self.wf(),
                self.input@ == s,
                self.offset == old(self).offset,
                p0 <= self.position,
                ws_end(s, p0) == ws_end(s, self.position as int),
                (self.line as int, self.column as int) == lc_fold(
                    s,
                    p0,
                    self.position as int,
                    l0,
                    c0,
                ),
            decreases s.len() - self.position,
        {
            let ghost pc = self.position as int;
            self.advance_update(1);
            proof {
                lemma_lc_fold_concat(s, p0, pc, pc + 1, l0, c0);
            }
        }
    }

    /// Moves the cursor to the first byte that is not a digit, or to the end
    /// of the input.
    fn advance_to_decimal_end(&mut self)
        requires
            old(self).wf(),
        ensures
            final(self).wf(),
            final(self).input@ == old(self).input@,
            final(self).offset == old(self).offset,
            old(self).position <= final(self).position,
            final(self).position == digits_end(old(self).input@, old(self).position as int),
            (final(self).line as int, final(self).column as int) == lc_fold(
                final(self).input@,
                old(self).position as int,
                final(self).position as int,
                old(self).line as int,
                old(self).column as int,
            ),
    {
        let ghost s = self.input@;
        let ghost p0 = old(self).position as int;
        let ghost l0 = old(self).line as int;
        let ghost c0 = old(self).column as int;
        while !self.is_eof() && is_digit(self.byte())
            invariant
                self.wf(),
                self.input@ == s,
                self.offset == old(self).offset,
                p0 <= self.position,
                digits_end(s, p0) == digits_end(s, self.position as int),
                (self.line as int, self.column as int) == lc_fold(
                    s,
                    p0,
                    self.position as int,
                    l0,
                    c0,
                ),
            decreases s.len() - self.position,
        {
            let ghost pc = self.position as int;
            self.advance(1);
            proof {
                lemma_lc_fold_concat(s, p0, pc, pc + 1, l0, c0);
            }
        }
    }

    /// Consumes the escape sequence whose backslash stands under the cursor:
    /// the backslash, the escaped byte if the input does not end first, then
    /// — for a hex escape — up to five further hex digits and one trailing
    /// whitespace occurrence, a CR LF pair counting as one occurrence.
    fn consume_escaped(&mut self)
        requires
            old(self).wf(),
            old(self).position < old(self).input@.len(),
            old(self).input@[old(self).position as int] == 0x5C,
        ensures
            final(self).wf(),
            final(self).input@ == old(self).input@,
            final(self).offset == old(self).offset,
            old(self).position <= final(self).position,
            final(self).position == escaped_end(old(self).input@, old(self).position as int),
            (final(self).line as int, final(self).column as int) == lc_fold(
                final(self).input@,
                old(self).position as int,
                final(self).position as int,
                old(self).line as int,
                old(self).column as int,
            ),
    {
        let ghost s = self.input@;
        let ghost p0 = self.position as int;
        let ghost l0 = self.line as int;
        let ghost c0 = self.column as int;
        self.advance(1);
        if self.is_eof() {
            return ;
        }
        let b = self.byte();
        self.advance_update(1);
        proof {
            lemma_lc_fold_concat(s, p0, p0 + 1, p0 + 2, l0, c0);
        }
        if is_hex_digit(b) {
            let mut i: usize = 0;
            while i < 5 && !self.is_eof() && is_hex_digit(self.byte())
                invariant
                    self.wf(),
                    i <= 5,
                    self.input@ == s,
                    self.offset == old(self).offset,
                    p0 + 2 <= self.position,
                    hex_run_end(s, p0 + 2, 5) == hex_run_end(s, self.position as int, (5 - i) as nat),
                    (self.line as int, self.column as int) == lc_fold(
                        s,
                        p0,
                        self.position as int,
                        l0,
                        c0,
                    ),
                decreases 5 - i,
            {
                let ghost pc = self.position as int;
                self.advance(1);
                i = i + 1;
                proof {
                    lemma_lc_fold_concat(s, p0, pc, pc + 1, l0, c0);
                }
            }
            let w = self.next(0);
            if is_whitespace(w) {
                let ghost pc = self.position as int;
                if w == 0x0D && self.next(1) == 0x0A {
                    self.advance_update(2);
                } else {
                    self.advance_update(1);
                }
                proof {
                    lemma_lc_fold_concat(s, p0, pc, self.position as int, l0, c0);
                }
            }
        }
    }

    /// Consumes identifier code points and escape sequences until a byte
    /// that neither continues an identifier nor begins a valid escape.
    fn consume_identifier(&mut self)
        requires
            old(self).wf(),
        ensures
            final(self).wf(),
            final(self).input@ == old(self).input@,
            final(self).offset == old(self).offset,
            final(self).position == ident_end(old(self).input@, old(self).position as int),
            old(self).position <= final(self).position,
            (final(self).line as int, final(self).column as int) == lc_fold(
                final(self).input@,
                old(self).position as int,
                final(self).position as int,
                old(self).line as int,
                old(self).column as int,
            ),
    {
        let ghost s = self.input@;
        let ghost p0 = self.position as int;
        let ghost l0 = self.line as int;
        let ghost c0 = self.column as int;
        let mut done = false;
        while !done
            invariant
                self.wf(),
                self.input@ == s,
                self.offset == old(self).offset,
                p0 <= self.position,
                ident_end(s, p0) == ident_end(s, self.position as int),
                done ==> self.position == ident_end(s, self.position as int),
                (self.line as int, self.column as int) == lc_fold(
                    s,
                    p0,
                    self.position as int,
                    l0,
                    c0,
                ),
            decreases s.len() - self.position, (if done { 0int } else { 1int }),
        {
            if self.is_eof() {
                done = true;
            } else {
                let b = self.byte();
                if is_identifier(b) {
                    let ghost pc = self.position as int;
                    self.advance_update(1);
                    proof {
                        lemma_lc_fold_concat(s, p0, pc, pc + 1, l0, c0);
                    }
                } else if is_valid_escape(b, self.next(1)) {
                    let ghost pc = self.position as int;
                    self.consume_escaped();
                    proof {
                        lemma_escaped_end_bounds(s, pc);
                        lemma_lc_fold_concat(s, p0, pc, self.position as int, l0, c0);
                    }
                } else {
                    done = true;
                }
            }
        }
    }

    /// Produces the whitespace token that begins under the cursor.
    fn consume_whitespace(&mut self) -> (t: Token)
        requires
            old(self).wf(),
            old(self).offset == old(self).position,
        ensures
            final(self).wf(),
            final(self).input@ == old(self).input@,
            final(self).offset == old(self).offset,
            old(self).position <= final(self).position,
            t@ == whitespace_token(old(self).input@, old(self).position as int).0,
            final(self).position == whitespace_token(old(self).input@, old(self).position as int).1,
            (final(self).line as int, final(self).column as int) == lc_fold(
                final(self).input@,
                old(self).position as int,
                final(self).position as int,
                old(self).line as int,
                old(self).column as int,
            ),
    {
        self.advance_to_whitespace_end();
        Token::WhiteSpace(self.slice_str())
    }

    /// Produces the comment token whose `/*` stands under the cursor.
    fn consume_comment(&mut self) -> (t: Token)
        requires
            old(self).wf(),
            old(self).offset == old(self).position,
            old(self).position < old(self).input@.len(),
            old(self).input@[old(self).position as int] == 0x2F,
            byte_at(old(self).input@, old(self).position + 1) == 0x2A,
        ensures
            final(self).wf(),
            final(self).input@ == old(self).input@,
            final(self).offset == old(self).offset,
            old(self).position <= final(self).position,
            t@ == comment_token(old(self).input@, old(self).position as int).0,
            final(self).position == comment_token(old(self).input@, old(self).position as int).1,
            (final(self).line as int, final(self).column as int) == lc_fold(
                final(self).input@,
                old(self).position as int,
                final(self).position as int,
                old(self).line as int,
                old(self).column as int,
            ),
    {
        let ghost s = self.input@;
        let ghost p0 = self.position as int;
        let ghost l0 = self.line as int;
        let ghost c0 = self.column as int;
        self.advance(2);
        let mut done = false;
        while !done
            invariant
                self.wf(),
                self.input@ == s,
                self.offset == old(self).offset,
                p0 + 2 <= self.position,
                !done ==> comment_scan(s, p0 + 2) == comment_scan(s, self.position as int),
                done ==> self.position == comment_scan(s, p0 + 2),
                (self.line as int, self.column as int) == lc_fold(
                    s,
                    p0,
                    self.position as int,
                    l0,
                    c0,
                ),
            decreases s.len() - self.position, (if done { 0int } else { 1int }),
        {
            if self.is_eof() {
                done = true;
            } else if self.byte() == 0x2A && self.next(1) == 0x2F {
                let ghost pc = self.position as int;
                self.advance(2);
                done = true;
                proof {
                    lemma_lc_fold_concat(s, p0, pc, pc + 2, l0, c0);
                }
            } else {
                let ghost pc = self.position as int;
                self.advance_update(1);
                proof {
                    lemma_lc_fold_concat(s, p0, pc, pc + 1, l0, c0);
                }
            }
        }
        Token::Comment(self.slice_str())
    }

    /// Consumes one structural byte and hands back the token standing for
    /// it.
    fn consume_simple(&mut self, t: Token) -> (r: Token)
        requires
            old(self).wf(),
            old(self).position < old(self).input@.len(),
            plain_byte(old(self).input@[old(self).position as int]),
        ensures
            final(self).wf(),
            final(self).input@ == old(self).input@,
            final(self).offset == old(self).offset,
            r == t,
            final(self).position == old(self).position + 1,
            (final(self).line as int, final(self).column as int) == lc_fold(
                final(self).input@,
                old(self).position as int,
                final(self).position as int,
                old(self).line as int,
                old(self).column as int,
            ),
    {
        self.advance(1);
        t
    }

    /// Produces the hash or delimiter token whose `#` stands under the
    /// cursor.
    fn consume_hash(&mut self) -> (t: Token)
        requires
            old(self).wf(),
            old(self).offset == old(self).position,
            old(self).position < old(self).input@.len(),
            old(self).input@[old(self).position as int] == 0x23,
        ensures
            final(self).wf(),
            final(self).input@ == old(self).input@,
            final(self).offset == old(self).offset,
            old(self).position <= final(self).position,
            t@ == hash_token(old(self).input@, old(self).position as int).0,
            final(self).position == hash_token(old(self).input@, old(self).position as int).1,
            (final(self).line as int, final(self).column as int) == lc_fold(
                final(self).input@,
                old(self).position as int,
                final(self).position as int,
                old(self).line as int,
                old(self).column as int,
            ),
    {
        let ghost s = self.input@;
        let ghost p0 = self.position as int;
        let ghost l0 = self.line as int;
        let ghost c0 = self.column as int;
        self.advance(1);
        let b = self.next(0);
        if is_identifier(b) || is_valid_escape(b, self.next(1)) {
            self.consume_identifier();
            proof {
                lemma_lc_fold_concat(s, p0, p0 + 1, self.position as int, l0, c0);
            }
            Token::Hash(self.slice_str())
        } else {
            Token::Delim(self.slice_str())
        }
    }

    /// Produces the string or bad-string token whose opening quote stands
    /// under the cursor.
    fn consume_string(&mut self) -> (t: Token)
        requires
            old(self).wf(),
            old(self).offset == old(self).position,
            old(self).position < old(self).input@.len(),
            old(self).input@[old(self).position as int] == 0x22 || old(self).input@[old(
                self,
            ).position as int] == 0x27,
        ensures
            final(self).wf(),
            final(self).input@ == old(self).input@,
            final(self).offset == old(self).offset,
            old(self).position <= final(self).position,
            t@ == string_token(old(self).input@, old(self).position as int).0,
            final(self).position == string_token(old(self).input@, old(self).position as int).1,
            (final(self).line as int, final(self).column as int) == lc_fold(
                final(self).input@,
                old(self).position as int,
                final(self).position as int,
                old(self).line as int,
                old(self).column as int,
            ),
    {
        let ghost s = self.input@;
        let ghost p0 = self.position as int;
        let ghost l0 = self.line as int;
        let ghost c0 = self.column as int;
        let q = self.byte();
        self.advance(1);
        let mut done = false;
        let mut bad = false;
        while !done
            invariant
                self.wf(),
                self.input@ == s,
                self.offset == old(self).offset,
                p0 + 1 <= self.position,
                q == byte_at(s, p0),
                q == 0x22 || q == 0x27,
                !done ==> bad == false,
                !done ==> string_scan(s, q, p0 + 1) == string_scan(s, q, self.position as int),
                done ==> string_scan(s, q, p0 + 1) == (bad, self.position as int),
                (self.line as int, self.column as int) == lc_fold(
                    s,
                    p0,
                    self.position as int,
                    l0,
                    c0,
                ),
            decreases s.len() - self.position, (if done { 0int } else { 1int }),
        {
            if self.is_eof() {
                done = true;
            } else {
                let b = self.byte();
                if b == q {
                    let ghost pc = self.position as int;
                    self.advance(1);
                    done = true;
                    proof {
                        lemma_lc_fold_concat(s, p0, pc, pc + 1, l0, c0);
                    }
                } else if is_newline(b) {
                    bad = true;
                    done = true;
                } else if b == 0x5C {
                    if self.position + 1 >= self.input.len() {
                        let ghost pc = self.position as int;
                        self.advance(1);
                        done = true;
                        proof {
                            lemma_lc_fold_concat(s, p0, pc, pc + 1, l0, c0);
                        }
                    } else {
                        let nxt = self.next(1);
                        if is_newline(nxt) {
                            let ghost pc = self.position as int;
                            if nxt == 0x0D && self.next(2) == 0x0A {
                                self.advance_update(3);
                            } else {
                                self.advance_update(2);
                            }
                            proof {
                                lemma_lc_fold_concat(s, p0, pc, self.position as int, l0, c0);
                            }
                        } else {
                            let ghost pc = self.position as int;
                            self.consume_escaped();
                            proof {
                                lemma_escaped_end_bounds(s, pc);
                                lemma_lc_fold_concat(s, p0, pc, self.position as int, l0, c0);
                            }
                        }
                    }
                } else {
                    let ghost pc = self.position as int;
                    self.advance_update(1);
                    proof {
                        lemma_lc_fold_concat(s, p0, pc, pc + 1, l0, c0);
                    }
                }
            }
        }
        if bad {
            Token::BadString(self.slice_str())
        } else {
            Token::String(self.slice_str())
        }
    }

    /// Consumes the numeric part of a numeric token: an optional sign,
    /// integer digits, a full stop with further digits if one stands there,
    /// and an exponent marker with an optional sign and digits if one stands
    /// there.
    fn consume_number(&mut self)
        requires
            old(self).wf(),
            old(self).position < old(self).input@.len(),
        ensures
            final(self).wf(),
            final(self).input@ == old(self).input@,
            final(self).offset == old(self).offset,
            old(self).position <= final(self).position,
            final(self).position == number_end(old(self).input@, old(self).position as int),
            (final(self).line as int, final(self).column as int) == lc_fold(
                final(self).input@,
                old(self).position as int,
                final(self).position as int,
                old(self).line as int,
                old(self).column as int,
            ),
    {
        let ghost s = self.input@;
        let ghost p0 = self.position as int;
        let ghost l0 = self.line as int;
        let ghost c0 = self.column as int;
        let b = self.byte();
        if b == 0x2B || b == 0x2D {
            self.advance(1);
        }
        let ghost pc1 = self.position as int;
        self.advance_to_decimal_end();
        proof {
            lemma_lc_fold_concat(s, p0, pc1, self.position as int, l0, c0);
        }
        if self.next(0) == 0x2E {
            let ghost pc2 = self.position as int;
            self.advance(1);
            proof {
                lemma_lc_fold_concat(s, p0, pc2, self.position as int, l0, c0);
            }
            let ghost pc3 = self.position as int;
            self.advance_to_decimal_end();
            proof {
                lemma_lc_fold_concat(s, p0, pc3, self.position as int, l0, c0);
            }
        }
        let b2 = self.next(0);
        if b2 == 0x45 || b2 == 0x65 {
            let ghost pc4 = self.position as int;
            self.advance(1);
            proof {
                lemma_lc_fold_concat(s, p0, pc4, self.position as int, l0, c0);
            }
            let b3 = self.next(0);
            if b3 == 0x2B || b3 == 0x2D {
                let ghost pc5 = self.position as int;
                self.advance(1);
                proof {
                    lemma_lc_fold_concat(s, p0, pc5, self.position as int, l0, c0);
                }
            }
            let ghost pc6 = self.position as int;
            self.advance_to_decimal_end();
            proof {
                lemma_lc_fold_concat(s, p0, pc6, self.position as int, l0, c0);
            }
        }
    }

    /// Produces the numeric token that begins under the cursor: a dimension
    /// when an identifier follows the numeric part, a percentage when `%`
    /// follows it, and a plain number otherwise.
    fn consume_numberic(&mut self) -> (t: Token)
        requires
            old(self).wf(),
            old(self).offset == old(self).position,
            old(self).position < old(self).input@.len(),
        ensures
            final(self).wf(),
            final(self).input@ == old(self).input@,
            final(self).offset == old(self).offset,
            old(self).position <= final(self).position,
            t@ == numeric_token(old(self).input@, old(self).position as int).0,
            final(self).position == numeric_token(old(self).input@, old(self).position as int).1,
            (final(self).line as int, final(self).column as int) == lc_fold(
                final(self).input@,
                old(self).position as int,
                final(self).position as int,
                old(self).line as int,
                old(self).column as int,
            ),
    {
        let ghost s = self.input@;
        let ghost p0 = self.position as int;
        let ghost l0 = self.line as int;
        let ghost c0 = self.column as int;
        self.consume_number();
        let b = self.next(0);
        if would_start_an_identifier(b, self.next(1), self.next(2)) {
            let ghost pc = self.position as int;
            self.consume_identifier();
            proof {
                lemma_lc_fold_concat(s, p0, pc, self.position as int, l0, c0);
            }
            Token::Dimension(self.slice_str())
        } else if b == 0x25 {
            let ghost pc = self.position as int;
            self.advance(1);
            proof {
                lemma_lc_fold_concat(s, p0, pc, self.position as int, l0, c0);
            }
            Token::Percentage(self.slice_str())
        } else {
            Token::Number(self.slice_str())
        }
    }

    /// Discards bytes until a closing parenthesis, consumed as well, or the
    /// end of the input, escapes consumed as units, to resynchronize after a
    /// malformed url.
    fn consume_bad_url_remnants(&mut self)
        requires
            old(self).wf(),
        ensures
            final(self).wf(),
            final(self).input@ == old(self).input@,
            final(self).offset == old(self).offset,
            final(self).position == bad_url_end(old(self).input@, old(self).position as int),
            old(self).position <= final(self).position,
            (final(self).line as int, final(self).column as int) == lc_fold(
                final(self).input@,
                old(self).position as int,
                final(self).position as int,
                old(self).line as int,
                old(self).column as int,
            ),
    {
        let ghost s = self.input@;
        let ghost p0 = self.position as int;
        let ghost l0 = self.line as int;
        let ghost c0 = self.column as int;
        let mut done = false;
        while !done
            invariant
                self.wf(),
                self.input@ == s,
                self.offset == old(self).offset,
                p0 <= self.position,
                !done ==> bad_url_end(s, p0) == bad_url_end(s, self.position as int),
                done ==> self.position == bad_url_end(s, p0),
                (self.line as int, self.column as int) == lc_fold(
                    s,
                    p0,
                    self.position as int,
                    l0,
                    c0,
                ),
            decreases s.len() - self.position, (if done { 0int } else { 1int }),
        {
            if self.is_eof() {
                done = true;
            } else {
                let b = self.byte();
                if b == 0x29 {
                    let ghost pc = self.position as int;
                    self.advance(1);
                    done = true;
                    proof {
                        lemma_lc_fold_concat(s, p0, pc, pc + 1, l0, c0);
                    }
                } else if is_valid_escape(b, self.next(1)) {
                    let ghost pc = self.position as int;
                    self.consume_escaped();
                    proof {
                        lemma_escaped_end_bounds(s, pc);
                        lemma_lc_fold_concat(s, p0, pc, self.position as int, l0, c0);
                    }
                } else {
                    let ghost pc = self.position as int;
                    self.advance_update(1);
                    proof {
                        lemma_lc_fold_concat(s, p0, pc, pc + 1, l0, c0);
                    }
                }
            }
        }
    }

    /// Produces the url or bad-url token whose body begins under the cursor,
    /// after any whitespace standing there.
    fn consume_url(&mut self) -> (t: Token)
        requires
            old(self).wf(),
        ensures
            final(self).wf(),
            final(self).input@ == old(self).input@,
            final(self).offset == old(self).offset,
            old(self).position <= final(self).position,
            t@ == url_token(old(self).input@, old(self).position as int).0,
            final(self).position == url_token(old(self).input@, old(self).position as int).1,
            (final(self).line as int, final(self).column as int) == lc_fold(
                final(self).input@,
                old(self).position as int,
                final(self).position as int,
                old(self).line as int,
                old(self).column as int,
            ),
    {
        let ghost s = self.input@;
        let ghost p0 = self.position as int;
        let ghost l0 = self.line as int;
        let ghost c0 = self.column as int;
        self.advance_to_whitespace_end();
        let cs = self.position;
        let ghost q = cs as int;
        let mut done = false;
        let mut bad = false;
        let mut value_end: usize = cs;
        while !done
            invariant
                self.wf(),
                self.input@ == s,
                self.offset == old(self).offset,
                p0 <= q <= self.position,
                cs == q,
                !done ==> bad == false,
                !done ==> url_scan(s, q) == url_scan(s, self.position as int),
                done ==> url_scan(s, q) == (bad, value_end as int, self.position as int),
                done ==> q <= value_end <= self.position,
                (self.line as int, self.column as int) == lc_fold(
                    s,
                    p0,
                    self.position as int,
                    l0,
                    c0,
                ),
            decreases s.len() - self.position, (if done { 0int } else { 1int }),
        {
            if self.is_eof() {
                value_end = self.position;
                done = true;
            } else {
                let b = self.byte();
                if b == 0x29 {
                    value_end = self.position;
                    let ghost pc = self.position as int;
                    self.advance(1);
                    done = true;
                    proof {
                        lemma_lc_fold_concat(s, p0, pc, pc + 1, l0, c0);
                    }
                } else if is_whitespace(b) {
                    value_end = self.position;
                    let ghost pc = self.position as int;
                    self.advance_to_whitespace_end();
                    proof {
                        lemma_lc_fold_concat(s, p0, pc, self.position as int, l0, c0);
                    }
                    if self.is_eof() {
                        done = true;
                    } else if self.byte() == 0x29 {
                        let ghost pw = self.position as int;
                        self.advance(1);
                        done = true;
                        proof {
                            lemma_lc_fold_concat(s, p0, pw, pw + 1, l0, c0);
                        }
                    } else {
                        let ghost pw = self.position as int;
                        self.consume_bad_url_remnants();
                        bad = true;
                        value_end = self.position;
                        done = true;
                        proof {
                            lemma_lc_fold_concat(s, p0, pw, self.position as int, l0, c0);
                        }
                    }
                } else if b == 0x22 || b == 0x27 || b == 0x28 || is_non_printable(b) {
                    let ghost pc = self.position as int;
                    self.consume_bad_url_remnants();
                    bad = true;
                    value_end = self.position;
                    done = true;
                    proof {
                        lemma_lc_fold_concat(s, p0, pc, self.position as int, l0, c0);
                    }
                } else if b == 0x5C {
                    if is_valid_escape(b, self.next(1)) {
                        let ghost pc = self.position as int;
                        self.consume_escaped();
                        proof {
                            lemma_escaped_end_bounds(s, pc);
                            lemma_lc_fold_concat(s, p0, pc, self.position as int, l0, c0);
                        }
                    } else {
                        let ghost pc = self.position as int;
                        self.consume_bad_url_remnants();
                        bad = true;
                        value_end = self.position;
                        done = true;
                        proof {
                            lemma_lc_fold_concat(s, p0, pc, self.position as int, l0, c0);
                        }
                    }
                } else {
                    let ghost pc = self.position as int;
                    self.advance_update(1);
                    proof {
                        lemma_lc_fold_concat(s, p0, pc, pc + 1, l0, c0);
                    }
                }
            }
        }
        if bad {
            Token::BadUrl(self.slice_str_pos(cs))
        } else {
            Token::Url(self.slice_range(cs, value_end))
        }
    }

    /// Produces the ident-like token that begins under the cursor: a url or
    /// function token when the identifier spells `url`, a function token
    /// when an opening parenthesis follows directly, and a plain identifier
    /// otherwise.
    fn consume_ident_like(&mut self) -> (t: Token)
        requires
            old(self).wf(),
            old(self).offset == old(self).position,
        ensures
            final(self).wf(),
            final(self).input@ == old(self).input@,
            final(self).offset == old(self).offset,
            old(self).position <= final(self).position,
            t@ == ident_like_token(old(self).input@, old(self).position as int).0,
            final(self).position == ident_like_token(old(self).input@, old(self).position as int).1,
            (final(self).line as int, final(self).column as int) == lc_fold(
                final(self).input@,
                old(self).position as int,
                final(self).position as int,
                old(self).line as int,
                old(self).column as int,
            ),
    {
        let ghost s = self.input@;
        let ghost p0 = self.position as int;
        let ghost l0 = self.line as int;
        let ghost c0 = self.column as int;
        let pos = self.position;
        self.consume_identifier();
        let lex = self.slice_str_pos(pos);
        let url_lexeme = lex.len() == 3 && (lex[0] == 0x75 || lex[0] == 0x55) && (lex[1] == 0x72
            || lex[1] == 0x52) && (lex[2] == 0x6C || lex[2] == 0x4C);
        proof {
            assert(url_lexeme == is_url_lexeme(span(s, p0, self.position as int)));
        }
        if url_lexeme {
            if self.next(0) == 0x28 {
                let ghost pc = self.position as int;
                self.advance(1);
                proof {
                    lemma_lc_fold_concat(s, p0, pc, pc + 1, l0, c0);
                }
            }
            let ghost pc = self.position as int;
            self.advance_to_whitespace_end();
            proof {
                lemma_lc_fold_concat(s, p0, pc, self.position as int, l0, c0);
            }
            let b = self.next(0);
            if b == 0x22 || b == 0x27 {
                return Token::Function(lex);
            }
            let ghost pu = self.position as int;
            let t = self.consume_url();
            proof {
                lemma_lc_fold_concat(s, p0, pu, self.position as int, l0, c0);
            }
            return t;
        }
        if self.next(0) == 0x28 {
            let ghost pc = self.position as int;
            self.advance(1);
            proof {
                lemma_lc_fold_concat(s, p0, pc, pc + 1, l0, c0);
            }
            return Token::Function(lex);
        }
        Token::Ident(lex)
    }

    /// Produces the token whose backslash stands under the cursor: an
    /// ident-like token when the backslash begins a valid escape, a
    /// delimiter otherwise.
    fn consume_reverse_solidus(&mut self) -> (t: Token)
        requires
            old(self).wf(),
            old(self).offset == old(self).position,
            old(self).position < old(self).input@.len(),
            old(self).input@[old(self).position as int] == 0x5C,
        ensures
            final(self).wf(),
            final(self).input@ == old(self).input@,
            final(self).offset == old(self).offset,
            t@ == solidus_token(old(self).input@, old(self).position as int).0,
            final(self).position == solidus_token(old(self).input@, old(self).position as int).1,
            (final(self).line as int, final(self).column as int) == lc_fold(
                final(self).input@,
                old(self).position as int,
                final(self).position as int,
                old(self).line as int,
                old(self).column as int,
            ),
    {
        let byte = self.byte();
        if is_valid_escape(byte, self.next(1)) {
            return self.consume_ident_like();
        }
        self.advance(1);
        Token::Delim(self.slice_str())
    }

    /// Produces the at-keyword or delimiter token whose `@` stands under the
    /// cursor.
    fn consume_at(&mut self) -> (t: Token)
        requires
            old(self).wf(),
            old(self).offset == old(self).position,
            old(self).position < old(self).input@.len(),
            old(self).input@[old(self).position as int] == 0x40,
        ensures
            final(self).wf(),
            final(self).input@ == old(self).input@,
            final(self).offset == old(self).offset,
            t@ == at_token(old(self).input@, old(self).position as int).0,
            final(self).position == at_token(old(self).input@, old(self).position as int).1,
            (final(self).line as int, final(self).column as int) == lc_fold(
                final(self).input@,
                old(self).position as int,
                final(self).position as int,
                old(self).line as int,
                old(self).column as int,
            ),
    {
        let ghost s = self.input@;
        let ghost p0 = self.position as int;
        let ghost l0 = self.line as int;
        let ghost c0 = self.column as int;
        self.advance(1);
        if would_start_an_identifier(self.next(0), self.next(1), self.next(2)) {
            self.consume_identifier();
            proof {
                lemma_lc_fold_concat(s, p0, p0 + 1, self.position as int, l0, c0);
            }
            return Token::AtKeyword(self.slice_str());
        }
        Token::Delim(self.slice_str())
    }

    /// Produces the token whose `<` stands under the cursor: CDO when `!--`
    /// follows, a delimiter otherwise.
    fn consume_less_than(&mut self) -> (t: Token)
        requires
            old(self).wf(),
            old(self).offset == old(self).position,
            old(self).position < old(self).input@.len(),
            old(self).input@[old(self).position as int] == 0x3C,
        ensures
            final(self).wf(),
            final(self).input@ == old(self).input@,
            final(self).offset == old(self).offset,
            t@ == less_than_token(old(self).input@, old(self).position as int).0,
            final(self).position == less_than_token(old(self).input@, old(self).position as int).1,
            (final(self).line as int, final(self).column as int) == lc_fold(
                final(self).input@,
                old(self).position as int,
                final(self).position as int,
                old(self).line as int,
                old(self).column as int,
            ),
    {
        let ghost s = self.input@;
        let ghost p0 = self.position as int;
        let ghost l0 = self.line as int;
        let ghost c0 = self.column as int;
        self.advance(1);
        if self.next(0) == 0x21 && self.next(1) == 0x2D && self.next(2) == 0x2D {
            self.advance(3);
            proof {
                lemma_lc_fold_concat(s, p0, p0 + 1, p0 + 4, l0, c0);
            }
            return Token::CDO;
        }
        Token::Delim(self.slice_str())
    }

    /// Produces the token whose `.` stands under the cursor: a numeric token
    /// when three code points would start a number, a delimiter otherwise.
    fn consume_full_stop(&mut self) -> (t: Token)
        requires
            old(self).wf(),
            old(self).offset == old(self).position,
            old(self).position < old(self).input@.len(),
            old(self).input@[old(self).position as int] == 0x2E,
        ensures
            final(self).wf(),
            final(self).input@ == old(self).input@,
            final(self).offset == old(self).offset,
            t@ == full_stop_token(old(self).input@, old(self).position as int).0,
            final(self).position == full_stop_token(old(self).input@, old(self).position as int).1,
            (final(self).line as int, final(self).column as int) == lc_fold(
                final(self).input@,
                old(self).position as int,
                final(self).position as int,
                old(self).line as int,
                old(self).column as int,
            ),
    {
        let byte = self.byte();
        if would_start_a_number(byte, self.next(1), self.next(2)) {
            return self.consume_numberic();
        }
        self.advance(1);
        Token::Delim(self.slice_str())
    }

    /// Produces the token whose `+` stands under the cursor: a numeric token
    /// when three code points would start a number, a delimiter otherwise.
    fn consume_plus_sign(&mut self) -> (t: Token)
        requires
            old(self).wf(),
            old(self).offset == old(self).position,
            old(self).position < old(self).input@.len(),
            old(self).input@[old(self).position as int] == 0x2B,
        ensures
            final(self).wf(),
            final(self).input@ == old(self).input@,
            final(self).offset == old(self).offset,
            t@ == plus_token(old(self).input@, old(self).position as int).0,
            final(self).position == plus_token(old(self).input@, old(self).position as int).1,
            (final(self).line as int, final(self).column as int) == lc_fold(
                final(self).input@,
                old(self).position as int,
                final(self).position as int,
                old(self).line as int,
                old(self).column as int,
            ),
    {
        if would_start_a_number(self.byte(), self.next(1), self.next(2)) {
            return self.consume_numberic();
        }
        self.advance(1);
        Token::Delim(self.slice_str())
    }

    /// Produces the token whose `-` stands under the cursor: a numeric
    /// token, CDC, an ident-like token, or a delimiter, in that priority
    /// order.
    fn consume_hyphen_minus(&mut self) -> (t: Token)
        requires
            old(self).wf(),
            old(self).offset == old(self).position,
            old(self).position < old(self).input@.len(),
            old(self).input@[old(self).position as int] == 0x2D,
        ensures
            final(self).wf(),
            final(self).input@ == old(self).input@,
            final(self).offset == old(self).offset,
            t@ == hyphen_token(old(self).input@, old(self).position as int).0,
            final(self).position == hyphen_token(old(self).input@, old(self).position as int).1,
            (final(self).line as int, final(self).column as int) == lc_fold(
                final(self).input@,
                old(self).position as int,
                final(self).position as int,
                old(self).line as int,
                old(self).column as int,
            ),
    {
        let byte = self.byte();
        let next1 = self.next(1);
        let next2 = self.next(2);
        if would_start_a_number(byte, next1, next2) {
            return self.consume_numberic();
        }
        if next1 == 0x2D && next2 == 0x3E {
            self.advance(3);
            return Token::CDC;
        }
        if would_start_an_identifier(byte, next1, next2) {
            return self.consume_ident_like();
        }
        self.advance(1);
        Token::Delim(self.slice_str())
    }

    /// Produces the next token and advances the cursor past it. At or past
    /// the end of the input the call produces the terminal token and leaves
    /// the state untouched; on any other input the token, the cursor and the
    /// line/column counters land exactly where the model [`next_spec`] says.
    pub fn next_token(&mut self) -> (t: Token)
        requires
            old(self).wf(),
        ensures
            final(self).wf(),
            final(self).input@ == old(self).input@,
            old(self).position <= final(self).position,
            (t@ is EOF) <==> old(self).position >= old(self).input@.len(),
            old(self).position >= old(self).input@.len() ==> final(self).position == old(
                self,
            ).position && final(self).offset == old(self).offset && final(self).line == old(
                self,
            ).line && final(self).column == old(self).column,
            old(self).position < old(self).input@.len() ==> {
                &&& t@ == next_spec(old(self).input@, old(self).position as int).0
                &&& final(self).position == next_spec(old(self).input@, old(self).position as int).1
                &&& old(self).position < final(self).position
                &&& final(self).offset == old(self).position
                &&& (final(self).line as int, final(self).column as int) == lc_fold(
                    final(self).input@,
                    old(self).position as int,
                    final(self).position as int,
                    old(self).line as int,
                    old(self).column as int,
                )
            },
            old(self).at_scalar_boundaries() ==> final(self).at_scalar_boundaries(),
    {
        if self.is_eof() {
            return Token::EOF;
        }
        proof {
            lemma_next_spec_progress(self.input@, self.position as int);
            if utf8_well_formed(self.input@) {
                lemma_next_spec_boundary(self.input@, self.position as int);
            }
        }
        self.offset = self.position;
        let code = self.byte();
        if code == 0x2F && self.next(1) == 0x2A {
            return self.consume_comment();
        } else if is_whitespace(code) {
            return self.consume_whitespace();
        } else if is_digit(code) {
            return self.consume_numberic();
        } else if is_identifier_start(code) {
            return self.consume_ident_like();
        }
        match code {
            0x22 | 0x27 => self.consume_string(),
            0x23 => self.consume_hash(),
            0x28 => self.consume_simple(Token::LeftParenthesis),
            0x29 => self.consume_simple(Token::RightParenthesis),
            0x2B => self.consume_plus_sign(),
            0x2C => self.consume_simple(Token::Comma),
            0x2D => self.consume_hyphen_minus(),
            0x2E => self.consume_full_stop(),
            0x3A => self.consume_simple(Token::Colon),
            0x3B => self.consume_simple(Token::Semicolon),
            0x3C => self.consume_less_than(),
            0x40 => self.consume_at(),
            0x5B => self.consume_simple(Token::LeftSquareBracket),
            0x5C => self.consume_reverse_solidus(),
            0x5D => self.consume_simple(Token::RightSquareBracket),
            0x7B => self.consume_simple(Token::LeftCurlyBracket),
            0x7D => self.consume_simple(Token::RightCurlyBracket),
            _ => {
                self.advance(1);
                Token::Delim(self.slice_str())
            },
        }
    }
}

} // verus!
