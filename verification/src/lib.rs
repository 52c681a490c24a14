//! Compiler for a compact shorthand describing keyboard shortcuts.
//!
//! The shorthand supports literal text, explicit concatenation with `+`,
//! implicit concatenation by adjacency, bracketed alternative groups
//! `{a,b,c}`, and inclusive single-character ranges `{a-z}`.
//!
//! The pipeline has three stages, chained as
//! `desugar(lex(tokenize(input)))`:
//! scanning a raw string into tokens ([`tokenizer`]), building a tree of
//! nodes from the tokens ([`lexer`]), and rewriting every range node into
//! an equivalent alternative group ([`desugarer`]).

pub mod desugarer;
pub mod laws;
pub mod lexer;
pub mod tokenizer;
mod views;
