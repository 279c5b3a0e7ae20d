//! LixVM: the stack machine that runs Julix bytecode.
pub mod value;
pub mod environment;
pub mod error;
pub mod operations;
pub mod native;
pub mod methods;
pub mod machine;
pub mod interpreter;
