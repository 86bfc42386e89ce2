//! The thin consumer layer above the tokenizer: block-token helpers and a
//! parser shell that drains tokens, gathering the comments that stand before
//! each meaningful token.

use vstd::prelude::*;

use crate::laws::nth_pos;
use crate::model::{lc_fold, lemma_lc_fold_concat, lemma_next_spec_progress, next_spec};
use crate::node::Comment;
use crate::source_location::{Position, SourceLocation};
use crate::token::{Token, TokenModel};
use crate::tokenizer::Tokenizer;

verus! {

/// Whether a token opens a block: a `{`, `[` or `(` token.
pub fn is_block_start(token: Token) -> (r: bool)
    ensures
        r == (token@ is LeftCurlyBracket || token@ is LeftSquareBracket
            || token@ is LeftParenthesis),
{
    if let Token::LeftCurlyBracket = token {
        return true;
    }
    if let Token::LeftSquareBracket = token {
        return true;
    }
    if let Token::LeftParenthesis = token {
        return true;
    }
    false
}

/// Whether `end` is the mirror of the block-opening token `start`: `}` for
/// `{`, `]` for `[`, `)` for `(`.
pub fn is_block_matched(start: Token, end: Token) -> (r: bool)
    ensures
        r == ((start@ is LeftCurlyBracket && end@ is RightCurlyBracket) || (
        start@ is LeftSquareBracket && end@ is RightSquareBracket) || (start@ is LeftParenthesis
            && end@ is RightParenthesis)),
{
    if let Token::LeftCurlyBracket = start {
        if let Token::RightCurlyBracket = end {
            return true;
        }
    }
    if let Token::LeftSquareBracket = start {
        if let Token::RightSquareBracket = end {
            return true;
        }
    }
    if let Token::LeftParenthesis = start {
        if let Token::RightParenthesis = end {
            return true;
        }
    }
    false
}

/// A token handed out by the parser shell, with its location and the
/// comments that stood directly before it.
pub struct TokenContext {
    pub token: Token,
    pub loc: SourceLocation,
    pub comments: Vec<Comment>,
}

/// The grammatical context a parser starts in.
pub enum ParserContext {
    Stylesheet,
}

/// The options a parser is built with.
pub struct ParserOptions {
    pub context: ParserContext,
}

/// A parser shell: it owns a tokenizer and drains it token by token.
pub struct Parser {
    pub tokenizer: Tokenizer,
    pub options: ParserOptions,
}

/// The offset at which the run of comment tokens beginning at offset `p`
/// ends: the start of the first token there that is not a comment.
pub open spec fn comments_end(s: Seq<u8>, p: int) -> int
    decreases s.len() - p,
        when 0 <= p <= s.len()
        via comments_end_decreases
{
    if p < s.len() && (next_spec(s, p).0 is Comment) {
        comments_end(s, next_spec(s, p).1)
    } else {
        p
    }
}

#[via_fn]
proof fn comments_end_decreases(s: Seq<u8>, p: int) {
    if 0 <= p && p < s.len() {
        lemma_next_spec_progress(s, p);
    }
}

/// The lexemes of the run of comment tokens beginning at offset `p`, in
/// order.
pub open spec fn comments_seq(s: Seq<u8>, p: int) -> Seq<Seq<u8>>
    decreases s.len() - p,
        when 0 <= p <= s.len()
        via comments_seq_decreases
{
    if p < s.len() && (next_spec(s, p).0 is Comment) {
        seq![comment_lexeme(next_spec(s, p).0)] + comments_seq(s, next_spec(s, p).1)
    } else {
        Seq::empty()
    }
}

#[via_fn]
proof fn comments_seq_decreases(s: Seq<u8>, p: int) {
    if 0 <= p && p < s.len() {
        lemma_next_spec_progress(s, p);
    }
}

/// The lexeme a comment token carries.
pub open spec fn comment_lexeme(t: TokenModel) -> Seq<u8> {
    match t {
        TokenModel::Comment(v) => v,
        _ => Seq::empty(),
    }
}

impl Parser {
    /// Well-formedness: the owned tokenizer is well-formed.
    pub open spec fn wf(self) -> bool {
        self.tokenizer.wf()
    }

    /// Builds a parser over `input` with the given options.
    pub fn new(input: Vec<u8>, options: ParserOptions) -> (p: Parser)
        requires
            input@.len() + 8 <= usize::MAX,
        ensures
            p.wf(),
            p.tokenizer.input@ == input@,
            p.tokenizer.position == crate::model::bom_len(input@),
            p.tokenizer.line == 1,
            p.tokenizer.column == 1,
            p.tokenizer.at_scalar_boundaries(),
            p.options == options,
    {
        Parser { tokenizer: Tokenizer::new(input), options }
    }

    /// Produces the next token together with the source location it spans:
    /// the line/column pair before the call and the one after it.
    pub fn get_token_and_loc(&mut self) -> (r: (Token, SourceLocation))
        requires
            old(self).wf(),
        ensures
            final(self).wf(),
            final(self).tokenizer.input@ == old(self).tokenizer.input@,
            final(self).options == old(self).options,
            old(self).tokenizer.position <= final(self).tokenizer.position,
            r.1.start.line == old(self).tokenizer.line,
            r.1.start.column == old(self).tokenizer.column,
            r.1.end.line == final(self).tokenizer.line,
            r.1.end.column == final(self).tokenizer.column,
            (r.0@ is EOF) <==> old(self).tokenizer.position >= old(self).tokenizer.input@.len(),
            old(self).tokenizer.position >= old(self).tokenizer.input@.len() ==> final(self).tokenizer.position == old(self).tokenizer.position && final(self).tokenizer.line
                == old(self).tokenizer.line && final(self).tokenizer.column == old(self).tokenizer.column,
            old(self).tokenizer.position < old(self).tokenizer.input@.len() ==> {
                &&& r.0@ == next_spec(
                    old(self).tokenizer.input@,
                    old(self).tokenizer.position as int,
                ).0
                &&& final(self).tokenizer.position == next_spec(
                    old(self).tokenizer.input@,
                    old(self).tokenizer.position as int,
                ).1
                &&& old(self).tokenizer.position < final(self).tokenizer.position
                &&& (final(self).tokenizer.line as int, final(self).tokenizer.column as int)
                    == lc_fold(
                    old(self).tokenizer.input@,
                    old(self).tokenizer.position as int,
                    final(self).tokenizer.position as int,
                    old(self).tokenizer.line as int,
                    old(self).tokenizer.column as int,
                )
            },
            old(self).tokenizer.at_scalar_boundaries()
                ==> final(self).tokenizer.at_scalar_boundaries(),
    {
        let start = Position { line: self.tokenizer.line, column: self.tokenizer.column };
        let token = self.tokenizer.next_token();
        let end = Position { line: self.tokenizer.line, column: self.tokenizer.column };
        let loc = SourceLocation { start, end };
        (token, loc)
    }

    /// Produces the next token that is not a comment, together with its
    /// location and the comments that stood directly before it, in order.
    pub fn consume_token(&mut self) -> (r: TokenContext)
        requires
            old(self).wf(),
        ensures
            final(self).wf(),
            final(self).tokenizer.input@ == old(self).tokenizer.input@,
            final(self).options == old(self).options,
            !(r.token@ is Comment),
            r.token@ == next_spec(
                old(self).tokenizer.input@,
                comments_end(old(self).tokenizer.input@, old(self).tokenizer.position as int),
            ).0,
            final(self).tokenizer.position as int == (if comments_end(
                old(self).tokenizer.input@,
                old(self).tokenizer.position as int,
            ) < old(self).tokenizer.input@.len() {
                next_spec(
                    old(self).tokenizer.input@,
                    comments_end(old(self).tokenizer.input@, old(self).tokenizer.position as int),
                ).1
            } else {
                comments_end(old(self).tokenizer.input@, old(self).tokenizer.position as int)
            }),
            r.comments@.map_values(|c: Comment| c.value@) == comments_seq(
                old(self).tokenizer.input@,
                old(self).tokenizer.position as int,
            ),
            (final(self).tokenizer.line as int, final(self).tokenizer.column as int) == lc_fold(
                old(self).tokenizer.input@,
                old(self).tokenizer.position as int,
                final(self).tokenizer.position as int,
                old(self).tokenizer.line as int,
                old(self).tokenizer.column as int,
            ),
            ({
                let s = old(self).tokenizer.input@;
                let p0 = old(self).tokenizer.position as int;
                let l0 = old(self).tokenizer.line as int;
                let c0 = old(self).tokenizer.column as int;
                (r.loc.start.line as int, r.loc.start.column as int) == lc_fold(
                    s,
                    p0,
                    comments_end(s, p0),
                    l0,
                    c0,
                )
            }),
            r.loc.end.line == final(self).tokenizer.line,
            r.loc.end.column == final(self).tokenizer.column,
            ({
                let s = old(self).tokenizer.input@;
                let p0 = old(self).tokenizer.position as int;
                let l0 = old(self).tokenizer.line as int;
                let c0 = old(self).tokenizer.column as int;
                forall|i: int|
                    0 <= i < r.comments@.len() ==> {
                        &&& (
                        #[trigger] r.comments@[i].loc.start.line as int,
                        r.comments@[i].loc.start.column as int,
                        ) == lc_fold(s, p0, nth_pos(s, p0, i as nat), l0, c0)
                        &&& (r.comments@[i].loc.end.line as int, r.comments@[
                            i
                        ].loc.end.column as int) == lc_fold(s, p0, nth_pos(s, p0, (i + 1) as nat), l0, c0)
                    }
            }),
            old(self).tokenizer.at_scalar_boundaries()
                ==> final(self).tokenizer.at_scalar_boundaries(),
    {
        let ghost s = self.tokenizer.input@;
        let ghost p0 = self.tokenizer.position as int;
        let ghost l0 = self.tokenizer.line as int;
        let ghost c0 = self.tokenizer.column as int;
        let mut comments: Vec<Comment> = Vec::new();
        proof {
            assert(comments@.map_values(|c: Comment| c.value@) =~= Seq::<Seq<u8>>::empty());
        }
        loop
            invariant
                self.wf(),
                self.tokenizer.input@ == s,
                s == old(self).tokenizer.input@,
                p0 == old(self).tokenizer.position as int,
                l0 == old(self).tokenizer.line as int,
                c0 == old(self).tokenizer.column as int,
                self.options == old(self).options,
                old(self).tokenizer.at_scalar_boundaries()
                    ==> self.tokenizer.at_scalar_boundaries(),
                p0 <= self.tokenizer.position <= s.len(),
                comments_end(s, p0) == comments_end(s, self.tokenizer.position as int),
                comments_seq(s, p0) == comments@.map_values(|c: Comment| c.value@)
                    + comments_seq(s, self.tokenizer.position as int),
                (self.tokenizer.line as int, self.tokenizer.column as int) == lc_fold(
                    s,
                    p0,
                    self.tokenizer.position as int,
                    l0,
                    c0,
                ),
                self.tokenizer.position as int == nth_pos(s, p0, comments@.len()),
                forall|i: int|
                    0 <= i < comments@.len() ==> {
                        &&& (
                        #[trigger] comments@[i].loc.start.line as int,
                        comments@[i].loc.start.column as int,
                        ) == lc_fold(s, p0, nth_pos(s, p0, i as nat), l0, c0)
                        &&& (comments@[i].loc.end.line as int, comments@[
                            i
                        ].loc.end.column as int) == lc_fold(s, p0, nth_pos(s, p0, (i + 1) as nat), l0, c0)
                    },
            decreases s.len() - self.tokenizer.position,
        {
            let ghost pc = self.tokenizer.position as int;
            let (token, loc) = self.get_token_and_loc();
            proof {
                lemma_lc_fold_concat(s, p0, pc, self.tokenizer.position as int, l0, c0);
            }
            match token {
                Token::Comment(v) => {
                    let ghost lexes = comments@.map_values(|c: Comment| c.value@);
                    let ghost k = comments@.len();
                    let ghost prev = comments@;
                    let comment = Comment { value: v, loc };
                    comments.push(comment);
                    proof {
                        assert(comments@.map_values(|c: Comment| c.value@) =~= lexes.push(v@));
                        assert(comments_seq(s, pc) == seq![v@] + comments_seq(
                            s,
                            self.tokenizer.position as int,
                        ));
                        assert(lexes + comments_seq(s, pc) =~= (lexes.push(v@)) + comments_seq(
                            s,
                            self.tokenizer.position as int,
                        ));
                        assert(nth_pos(s, p0, k + 1) == self.tokenizer.position as int);
                        assert(comments@[k as int].loc == loc);
                        assert forall|i: int| 0 <= i < comments@.len() implies {
                            &&& (
                            #[trigger] comments@[i].loc.start.line as int,
                            comments@[i].loc.start.column as int,
                            ) == lc_fold(s, p0, nth_pos(s, p0, i as nat), l0, c0)
                            &&& (comments@[i].loc.end.line as int, comments@[
                                i
                            ].loc.end.column as int) == lc_fold(
                                s,
                                p0,
                                nth_pos(s, p0, (i + 1) as nat),
                                l0,
                                c0,
                            )
                        } by {
                            if i < k {
                                assert(comments@[i] == prev[i]);
                            }
                        }
                    }
                },
                t => {
                    proof {
                        assert(comments_seq(s, pc) =~= Seq::<Seq<u8>>::empty());
                        assert(comments@.map_values(|c: Comment| c.value@) + comments_seq(s, pc)
                            =~= comments@.map_values(|c: Comment| c.value@));
                    }
                    return TokenContext { token: t, loc, comments };
                },
            }
        }
    }
}

} // verus!
