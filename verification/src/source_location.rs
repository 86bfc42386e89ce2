//! Line/column positions over the source text.
//!
//! Both counters are 1-based and count Unicode scalar values, not bytes: the
//! cursor leaves the column unchanged on UTF-8 continuation bytes, so a
//! multi-byte scalar value occupies a single column.

use vstd::prelude::*;

verus! {

/// A point in the source text, as a 1-based line and column pair.
#[derive(PartialEq, Eq, Structural, Debug, Clone, Copy)]
pub struct Position {
    pub line: usize,
    pub column: usize,
}

/// The positions bracketing one token: where it starts and where the cursor
/// stands once it has been produced.
#[derive(PartialEq, Eq, Structural, Debug, Clone, Copy)]
pub struct SourceLocation {
    pub start: Position,
    pub end: Position,
}

} // verus!
