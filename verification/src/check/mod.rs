pub mod ast;
pub mod expand;
pub mod float;
pub mod shape;
pub mod specialization_identity;
pub mod specialize;
pub mod types;
