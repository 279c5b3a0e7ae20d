//! The syntax tree of the first Julix dialect: print statements over literals and sums.
pub mod expression;
pub mod statement;
