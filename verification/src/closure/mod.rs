pub mod ast;
pub mod copy;
