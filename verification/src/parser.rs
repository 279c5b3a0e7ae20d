//! The parser of the first Julix dialect.
pub mod expression;
