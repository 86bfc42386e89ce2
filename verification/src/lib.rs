//! A lexical analyzer for the CSS syntax: it turns a byte buffer holding CSS
//! source text into the sequence of lexical tokens that the CSS tokenization
//! algorithm prescribes, one token per call.
//!
//! The heart of the crate is [`tokenizer::Tokenizer`], a single-pass cursor
//! over the input. Its behaviour is pinned down against a mathematical model
//! of the algorithm (module [`model`]); the laws that the token stream obeys
//! (full coverage of the input, termination, stability at end of input,
//! byte-order-mark transparency) are stated and proved in [`laws`], and the
//! fact that the cursor stays on scalar-value boundaries of a well-formed
//! UTF-8 input is stated and proved in [`utf8`].

pub mod classify;
pub mod laws;
pub mod model;
pub mod node;
pub mod parser;
pub mod source_location;
pub mod token;
pub mod tokenizer;
pub mod utf8;
