//! LixVM bytecode: the instruction set, chunks, the function table and the `.jlxr` file format.
pub mod instruction;
pub mod chunk;
