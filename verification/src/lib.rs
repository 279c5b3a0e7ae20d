//! Julix: lexer, parser and bytecode compiler (Lixer), bytecode format, and the LixVM machine.
pub mod text;
pub mod ast;
pub mod lexer;
pub mod parser;
pub mod lixer;
pub mod bytecode;
pub mod lixvm;
