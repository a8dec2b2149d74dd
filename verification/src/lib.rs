//! A parser for a small statement language.
//!
//! - [`lexer`] splits a source text into [`token`]s.
//! - [`parser`] makes a tree of them, and reports what does not fit. [`grammar`] says what it
//!   makes of which tokens.
//! - [`laws`] holds what follows for every input.
pub mod ast;
pub mod error;
pub mod grammar;
pub mod interner;
pub mod laws;
pub mod lexer;
pub mod parser;
pub mod red_node;
pub mod source_map;
pub mod syntax;
pub mod token;
