//! A verified front end for a minimal parenthesized-expression language:
//! a lexical scanner that turns source text into a token sequence, and a
//! recursive parser that turns the token sequence into a tree of
//! expression nodes.

pub mod parser;
pub mod tokenizer;
