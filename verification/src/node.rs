//! The node types that a tree-building consumer of the token stream works
//! with. The tokenizer itself never builds these; they describe the shape of
//! what a parser above it would produce.

use vstd::prelude::*;

use crate::source_location::SourceLocation;

verus! {

/// One node of a syntax tree, with the comments gathered around it.
pub struct Node {
    pub kind: NodeType,
    pub loc: SourceLocation,
    pub children: Vec<Box<Node>>,
    pub leading_comments: Vec<Comment>,
    pub inner_comments: Vec<Comment>,
    pub trailing_comments: Vec<Comment>,
}

/// An at-rule: its name, its prelude and its block.
pub struct AtRule {
    pub name: Vec<u8>,
    pub prelude: Box<Node>,
    pub block: Box<Node>,
}

/// A comment, with the raw bytes of its lexeme and where it stood.
pub struct Comment {
    pub value: Vec<u8>,
    pub loc: SourceLocation,
}

/// A block of children of one kind.
pub struct Block<T> {
    pub children: Vec<T>,
}

/// The kinds of node a tree above the token stream distinguishes.
pub enum NodeType {
    StyleSheet,
    AtRulePrelude,
    Function(Vec<u8>),
    Block,
    AtRule(AtRule),
    CDC,
    CDO,
}

} // verus!
