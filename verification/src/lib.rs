use vstd::prelude::*;

pub mod ast;
pub mod lexer;
pub mod resolve;
pub mod source;
pub mod text;
pub mod diagnostic;
pub mod driver;
pub mod check;
pub mod cli;
pub mod core_ir;
pub mod closure;
pub mod control;
pub mod editor;

verus! {

} // verus!
