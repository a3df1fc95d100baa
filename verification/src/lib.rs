//! The front end of an interpreter for a small C-like scripting language:
//! a lexer that turns source text into a stream of typed tokens, and a
//! recursive-descent parser skeleton that consumes that stream through a
//! two-token lookahead window and builds statement nodes. Every function
//! carries a contract against a mathematical model of the token stream,
//! and the contracts are machine-checked.

pub mod ast;
pub mod lexer;
pub mod parser;
pub mod token;
