//! The output value type of the tokenizer.
//!
//! A [`Token`] is one classified unit of lexical input. A case either carries
//! no data (the structural tokens and the end-of-input marker) or carries a
//! lexeme: bytes copied verbatim out of the source text. The tokenizer never
//! decodes escape sequences, strips quote delimiters or parses numeric
//! values; the carried bytes are the raw source text.
//!
//! [`TokenModel`] is the mathematical shadow of [`Token`]: the same cases
//! over `Seq<u8>` instead of `Vec<u8>`. Contracts speak of a token through
//! its view, which is a `TokenModel`.

use vstd::prelude::*;

verus! {

/// One classified, positioned unit of lexical input.
#[derive(Debug, Clone, PartialEq, Eq)]
pub enum Token {
    /// The terminal token: the cursor stands at the end of the input.
    EOF,
    /// An identifier, e.g. a property name or keyword.
    Ident(Vec<u8>),
    /// An identifier directly followed by an opening parenthesis; the lexeme
    /// excludes the parenthesis.
    Function(Vec<u8>),
    /// `@` followed by an identifier; the lexeme includes the `@`.
    AtKeyword(Vec<u8>),
    /// `#` followed by identifier code points; the lexeme includes the `#`.
    Hash(Vec<u8>),
    /// A quoted string; the lexeme includes the quote characters.
    String(Vec<u8>),
    /// A string interrupted by a bare newline; the lexeme stops before the
    /// newline.
    BadString(Vec<u8>),
    /// The body of a `url(...)` construct, without the delimiters and without
    /// the whitespace around the body.
    Url(Vec<u8>),
    /// A malformed `url(...)` construct; the lexeme runs from the body's
    /// start to the point where the tokenizer resynchronized.
    BadUrl(Vec<u8>),
    /// A single code point that fits no other case.
    Delim(Vec<u8>),
    /// A numeric literal.
    Number(Vec<u8>),
    /// A numeric literal directly followed by `%`.
    Percentage(Vec<u8>),
    /// A numeric literal directly followed by a unit identifier.
    Dimension(Vec<u8>),
    /// A maximal run of whitespace.
    WhiteSpace(Vec<u8>),
    /// `<!--`.
    CDO,
    /// `-->`.
    CDC,
    /// `:`.
    Colon,
    /// `;`.
    Semicolon,
    /// `,`.
    Comma,
    /// `[`.
    LeftSquareBracket,
    /// `]`.
    RightSquareBracket,
    /// `(`.
    LeftParenthesis,
    /// `)`.
    RightParenthesis,
    /// `{`.
    LeftCurlyBracket,
    /// `}`.
    RightCurlyBracket,
    /// `/*` up to and including the closing `*/`, or to the end of the input.
    Comment(Vec<u8>),
}

/// The mathematical shadow of [`Token`]: the same cases with mathematical
/// sequences for lexemes.
pub enum TokenModel {
    EOF,
    Ident(Seq<u8>),
    Function(Seq<u8>),
    AtKeyword(Seq<u8>),
    Hash(Seq<u8>),
    String(Seq<u8>),
    BadString(Seq<u8>),
    Url(Seq<u8>),
    BadUrl(Seq<u8>),
    Delim(Seq<u8>),
    Number(Seq<u8>),
    Percentage(Seq<u8>),
    Dimension(Seq<u8>),
    WhiteSpace(Seq<u8>),
    CDO,
    CDC,
    Colon,
    Semicolon,
    Comma,
    LeftSquareBracket,
    RightSquareBracket,
    LeftParenthesis,
    RightParenthesis,
    LeftCurlyBracket,
    RightCurlyBracket,
    Comment(Seq<u8>),
}

impl View for Token {
    type V = TokenModel;

    open spec fn view(&self) -> TokenModel {
        match self {
            Token::EOF => TokenModel::EOF,
            Token::Ident(v) => TokenModel::Ident(v@),
            Token::Function(v) => TokenModel::Function(v@),
            Token::AtKeyword(v) => TokenModel::AtKeyword(v@),
            Token::Hash(v) => TokenModel::Hash(v@),
            Token::String(v) => TokenModel::String(v@),
            Token::BadString(v) => TokenModel::BadString(v@),
            Token::Url(v) => TokenModel::Url(v@),
            Token::BadUrl(v) => TokenModel::BadUrl(v@),
            Token::Delim(v) => TokenModel::Delim(v@),
            Token::Number(v) => TokenModel::Number(v@),
            Token::Percentage(v) => TokenModel::Percentage(v@),
            Token::Dimension(v) => TokenModel::Dimension(v@),
            Token::WhiteSpace(v) => TokenModel::WhiteSpace(v@),
            Token::CDO => TokenModel::CDO,
            Token::CDC => TokenModel::CDC,
            Token::Colon => TokenModel::Colon,
            Token::Semicolon => TokenModel::Semicolon,
            Token::Comma => TokenModel::Comma,
            Token::LeftSquareBracket => TokenModel::LeftSquareBracket,
            Token::RightSquareBracket => TokenModel::RightSquareBracket,
            Token::LeftParenthesis => TokenModel::LeftParenthesis,
            Token::RightParenthesis => TokenModel::RightParenthesis,
            Token::LeftCurlyBracket => TokenModel::LeftCurlyBracket,
            Token::RightCurlyBracket => TokenModel::RightCurlyBracket,
            Token::Comment(v) => TokenModel::Comment(v@),
        }
    }
}

} // verus!
