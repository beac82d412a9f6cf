//! Calls of a recursive function `walk` in the closure-converted form of small programs:
//! `walk` takes `value` and, unless it is zero, calls itself with `value - 1`; `main` calls
//! `walk(2)`. Each program differs in what `walk` does with the result of its recursive call.

use lib::check::ast::Type;
use lib::closure::ast::{
    Atom, AtomId, AtomKind, Binding, Block, Function, FunctionId, FunctionKind, Operation,
    Parameter, Pattern, Program, Reference, TopLevelBinding, TopLevelPattern,
};
use lib::control::ast::{Program as ControlProgram, Terminator};
use lib::control::lower;
use lib::core_ir::ast::{BinaryPrimitive, ProgramInterface, ValueId};
use lib::resolve::{ExternalOperationId, LambdaId};
use lib::source::{FileId, Span};

const WALK: u32 = 1;
const MAIN: u32 = 2;
const WALK_VALUE: u32 = 50;

fn span() -> Span {
    Span::new(FileId::new(92), 0, 0)
}

fn value(n: u32) -> ValueId {
    ValueId::Temporary(n)
}

fn atom(n: usize, kind: AtomKind, ty: Type) -> Atom {
    Atom { id: AtomId(n), kind, ty, span: span() }
}

fn local(n: u32, ty: Type) -> Atom {
    atom(n as usize, AtomKind::Reference(Reference::Binding(value(n))), ty)
}

fn integer(n: usize, v: i128) -> Atom {
    atom(n, AtomKind::Integer(v), Type::Int32)
}

fn walk_id() -> FunctionId {
    FunctionId::Lambda(LambdaId(WALK))
}

fn walk_itself() -> Atom {
    let ty = Type::Function { parameter: Box::new(Type::Int32), result: Box::new(Type::Int32) };
    atom(40, AtomKind::Reference(Reference::SelfClosure(walk_id())), ty)
}

fn bind(n: u32, ty: Type, operation: Operation) -> Binding {
    Binding { pattern: Pattern::Binding { id: value(n), ty }, operation, span: span() }
}

fn block(bindings: Vec<Binding>, result: Atom) -> Block {
    Block { bindings, result, span: span() }
}

/// `walk`'s body: `r := if value == 0 then { then } else { otherwise }; r`.
fn walk(result: Type, otherwise: Block, then: Block) -> Function {
    let branch = Operation::PrimitiveBranch {
        operator: BinaryPrimitive::Equal,
        left: local(0, Type::Int32),
        right: integer(41, 0),
        otherwise: Box::new(otherwise),
        then: Box::new(then),
    };
    Function {
        id: walk_id(),
        kind: FunctionKind::Ordinary { captures: vec![] },
        parameter: Parameter { binding: Some(value(0)), ty: Type::Int32, span: span() },
        body: block(vec![bind(9, result.clone(), branch)], local(9, result)),
        joins: vec![],
    }
}

/// `n := value - 1; child := walk(n)`, the start of the recursive branch.
fn recursive_call(child: u32, result: Type) -> Vec<Binding> {
    vec![
        bind(
            1,
            Type::Int32,
            Operation::PrimitiveBinary {
                operator: BinaryPrimitive::Subtract,
                left: local(0, Type::Int32),
                right: integer(42, 1),
            },
        ),
        bind(child, result, Operation::Call { callee: walk_itself(), argument: local(1, Type::Int32) }),
    ]
}

/// The program with `walk` and a `main` that calls the top-level closure of `walk` with 2.
fn program(walk: Function) -> Program {
    let walk_type = Type::Function { parameter: Box::new(Type::Int32), result: Box::new(Type::Int32) };
    let closure = bind(60, walk_type.clone(), Operation::MakeClosure { function: walk_id(), captures: vec![] });
    let top = TopLevelBinding {
        pattern: TopLevelPattern::Binding { id: value(WALK_VALUE), name: "walk".to_string(), ty: walk_type.clone() },
        value: block(vec![closure], local(60, walk_type.clone())),
        span: span(),
    };
    let call = bind(
        70,
        Type::Int32,
        Operation::Call { callee: local(WALK_VALUE, walk_type), argument: integer(43, 2) },
    );
    let main = Function {
        id: FunctionId::Lambda(LambdaId(MAIN)),
        kind: FunctionKind::Ordinary { captures: vec![] },
        parameter: Parameter { binding: None, ty: Type::Unit, span: span() },
        body: block(vec![call], local(70, Type::Int32)),
        joins: vec![],
    };
    Program {
        interface: ProgramInterface { type_aliases: vec![], external_types: vec![], externals: vec![] },
        bindings: vec![top],
        functions: vec![walk, main],
        entry: None,
        span: span(),
    }
}

fn calls_walk(callee: &Atom, walk: FunctionId) -> bool {
    matches!(callee.kind, AtomKind::Reference(Reference::SelfClosure(id)) if id == walk)
}

/// For each state that calls `walk` by its own closure, in state order: whether it is a tail call.
fn walk_calls(program: &ControlProgram) -> Vec<bool> {
    let walk = program.functions[0].id;
    program
        .states
        .iter()
        .filter_map(|state| match &state.terminator {
            Terminator::Call { callee, .. } if calls_walk(callee, walk) => Some(false),
            Terminator::TailCall { callee, .. } if calls_walk(callee, walk) => Some(true),
            _ => None,
        })
        .collect()
}

#[test]
fn makes_an_identity_result_continuation_a_tail_call() {
    let otherwise = block(recursive_call(2, Type::Int32), local(2, Type::Int32));
    let then = block(vec![], integer(44, 0));
    let lowered = lower(&program(walk(Type::Int32, otherwise, then)));
    assert_eq!(walk_calls(&lowered), vec![true]);
}

#[test]
fn preserves_a_continuation_that_transforms_the_result() {
    let mut bindings = recursive_call(2, Type::Int32);
    bindings.push(bind(
        3,
        Type::Int32,
        Operation::PrimitiveBinary {
            operator: BinaryPrimitive::Add,
            left: local(2, Type::Int32),
            right: integer(45, 1),
        },
    ));
    let otherwise = block(bindings, local(3, Type::Int32));
    let then = block(vec![], integer(44, 0));
    let lowered = lower(&program(walk(Type::Int32, otherwise, then)));
    let walk = lowered.functions[0].id;
    assert!(lowered.states.iter().any(|state| matches!(
        &state.terminator,
        Terminator::Call { callee, .. } if calls_walk(callee, walk)
    )));
}

#[test]
fn makes_a_unit_result_continuation_a_tail_call() {
    let otherwise = block(recursive_call(2, Type::Unit), local(2, Type::Unit));
    let then = block(vec![], atom(46, AtomKind::Unit, Type::Unit));
    let lowered = lower(&program(walk(Type::Unit, otherwise, then)));
    let calls = walk_calls(&lowered);
    assert!(calls.iter().any(|tail| *tail));
    assert!(!calls.iter().any(|tail| !*tail));
}

#[test]
fn preserves_a_unit_continuation_with_an_external_effect() {
    let mut bindings = recursive_call(2, Type::Unit);
    bindings.push(bind(
        3,
        Type::Unit,
        Operation::ExternalCall { id: ExternalOperationId(0), argument: local(2, Type::Unit) },
    ));
    let otherwise = block(bindings, local(3, Type::Unit));
    let then = block(vec![], atom(46, AtomKind::Unit, Type::Unit));
    let lowered = lower(&program(walk(Type::Unit, otherwise, then)));
    assert!(lowered.states.iter().any(|state| matches!(
        &state.terminator,
        Terminator::Call { callee, .. }
            if matches!(callee.kind, AtomKind::Reference(Reference::SelfClosure(_)))
    )));
}
