pub mod ast;
pub mod interface;
pub mod lowering;
pub mod primitive;

pub use lowering::lower;
