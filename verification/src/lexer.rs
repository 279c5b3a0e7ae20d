//! The lexer of the first Julix dialect.
pub mod token;
