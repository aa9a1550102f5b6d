//! A compiler for boolean search queries: a lexer that turns query text into
//! tokens and an interned value table, and a parser that turns those tokens
//! into a normalised expression tree.
pub mod node;
pub mod parse;
pub mod token;
