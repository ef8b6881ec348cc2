//! A small stylesheet-like language: statements bind a name to a target key
//! plus an optional value-transformation format. The library lexes source
//! text into spanned tokens, parses the token stream into records by
//! recursive descent, and collects recoverable diagnostics; it never aborts
//! on the first malformed statement.

pub mod diag;
pub mod lexer;
pub mod parser;
