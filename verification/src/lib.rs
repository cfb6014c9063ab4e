//! Lexer, parser, error locator and stack machine for the Fae language.
pub mod text;
pub mod lexer;
pub mod runtime;
pub mod ast;
pub mod error;
pub mod faestd;
pub mod machine;
pub mod laws;
