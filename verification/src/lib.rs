//! A lexer and recursive-descent parser for a minimal S-expression syntax:
//! parenthesized calls, unsigned integer literals, quoted strings, and bare
//! identifiers. Source text is turned into a flat token sequence, the token
//! sequence into a nested bracket tree, and the bracket tree into an abstract
//! syntax tree.

pub mod identify;
pub mod parse;
pub mod tokenize;
