//! A lexical analyzer for JSON-like text.
//!
//! The lexer turns a sequence of characters into a sequence of typed
//! tokens (brackets, delimiters, keywords, strings, numbers), validating
//! the low-level lexical grammar as it goes: numeric literal shape,
//! string termination and keyword spelling.  It builds no value tree and
//! checks no structural rules such as bracket balance; that is left to a
//! downstream parser.

pub mod laws;
pub mod lexer;
pub mod numeric;
pub mod scan;
pub mod tokens;
pub mod types;
