pub mod ast;
pub mod forwarding;
pub mod liveness;
pub mod lowering;
pub mod reach;

pub use lowering::lower;
