use vstd::prelude::*;

use crate::check::ast::{MemoryPrimitive, Type};
use crate::closure::ast::{self as closure, Atom, CaptureField, FunctionId, Pattern};
use crate::core_ir::ast::ProgramInterface;
use crate::core_ir::ast::{BinaryPrimitive, UnaryPrimitive, ValueId};
use crate::resolve::ExternalOperationId;
use crate::source::Span;

verus! {

/// A program as a graph of states: each top-level binding and each function starts in one.
#[derive(Debug, Eq, PartialEq)]
pub struct Program {
    pub interface: ProgramInterface,
    pub bindings: Vec<TopLevelBinding>,
    pub functions: Vec<Function>,
    pub states: Vec<State>,
    pub span: Span,
}

#[derive(Debug, Eq, PartialEq)]
pub struct TopLevelBinding {
    pub pattern: closure::TopLevelPattern,
    pub entry: StateId,
    pub span: Span,
}

#[derive(Debug, Eq, PartialEq)]
pub struct Function {
    pub id: FunctionId,
    pub environment: Vec<CaptureField>,
    pub parameter: closure::Parameter,
    pub entry: StateId,
}

/// A state of the control-flow graph, by its position in the program's states.
#[derive(Clone, Copy, Debug, Eq, Hash, PartialEq, Structural)]
pub struct StateId(pub usize);

/// A straight-line stretch of code: it takes an optional input, runs its bindings in order and
/// ends in a terminator.
#[derive(Debug, Eq, PartialEq)]
pub struct State {
    pub input: Option<Pattern>,
    pub bindings: Vec<Binding>,
    pub terminator: Terminator,
    pub span: Span,
}

#[derive(Debug, Eq, PartialEq)]
pub struct Binding {
    pub pattern: Pattern,
    pub operation: Operation,
    pub span: Span,
}

/// An operation that a state runs without leaving it.
#[derive(Debug, Eq, PartialEq)]
pub enum Operation {
    Atom(Atom),
    MakeClosure { function: FunctionId, captures: Vec<Atom> },
    SymbolLength { value: Atom },
    SymbolAt { argument: Atom },
    Memory { primitive: MemoryPrimitive, operands: Vec<Atom> },
    ExternalCall { id: ExternalOperationId, argument: Atom },
    NumericConversion { operand: Atom },
    Product(Vec<Atom>),
    SumInjection { index: usize, value: Atom },
    PrimitiveUnary { operator: UnaryPrimitive, operand: Atom },
    PrimitiveBinary { operator: BinaryPrimitive, left: Atom, right: Atom },
}

/// A value that lives across a call, and must be saved for the state that resumes after it.
#[derive(Debug, Eq, PartialEq)]
pub struct LiveValue {
    pub id: ValueId,
    pub ty: Type,
    pub span: Span,
}

/// How a state ends.
#[derive(Debug, Eq, PartialEq)]
pub enum Terminator {
    Return(Atom),
    Goto(StateId),
    Jump { target: StateId, value: Atom },
    Call {
        callee: Atom,
        argument: Atom,
        resume: StateId,
        live: Vec<LiveValue>,
        needs_environment: bool,
    },
    TailCall { callee: Atom, argument: Atom },
    Case { scrutinee: Atom, arms: Vec<CaseArm> },
    PrimitiveBranch {
        operator: BinaryPrimitive,
        left: Atom,
        right: Atom,
        otherwise: StateId,
        then: StateId,
    },
}

#[derive(Clone, Copy, Debug, Eq, PartialEq, Structural)]
pub struct CaseArm {
    pub index: usize,
    pub target: StateId,
    pub span: Span,
}

/// The states that a terminator can pass control to, in order.
pub open spec fn successor_ids(terminator: Terminator) -> Seq<StateId> {
    match terminator {
        Terminator::Return(_) | Terminator::TailCall { .. } => seq![],
        Terminator::Goto(target) | Terminator::Jump { target, .. } => seq![target],
        Terminator::Call { resume, .. } => seq![resume],
        Terminator::Case { arms, .. } => arms@.map_values(|arm: CaseArm| arm.target),
        Terminator::PrimitiveBranch { otherwise, then, .. } => seq![otherwise, then],
    }
}

/// Every state that a terminator of `states` passes control to is one of `states`.
pub open spec fn targets_in_range(states: Seq<State>) -> bool {
    forall|i: int, k: int|
        #![trigger successor_ids(states[i].terminator)[k]]
        0 <= i < states.len() && 0 <= k < successor_ids(states[i].terminator).len()
            ==> successor_ids(states[i].terminator)[k].0 < states.len()
}

} // verus!
