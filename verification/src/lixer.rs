//! Lixer: source text to tokens, tokens to syntax tree, syntax tree to bytecode.
pub mod token;
pub mod ast;
pub mod parser;
pub mod statement;
pub mod emitter;
