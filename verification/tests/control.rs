use lib::check::ast::Type;
use lib::closure::ast::{Atom, AtomId, AtomKind, FunctionId, Pattern, Reference};
use lib::control::ast::{Binding, LiveValue, Operation, State, StateId, Terminator};
use lib::control::forwarding::normalize_calls;
use lib::control::liveness::{resolve_liveness, successors};
use lib::core_ir::ast::{BinaryPrimitive, ValueId};
use lib::resolve::{ExternalOperationId, LambdaId};
use lib::source::{FileId, Span};

fn span() -> Span {
    Span::new(FileId::new(0), 0, 0)
}

fn value(n: u32) -> ValueId {
    ValueId::Temporary(n)
}

fn reference(n: u32, ty: Type) -> Atom {
    Atom {
        id: AtomId(n as usize),
        kind: AtomKind::Reference(Reference::Binding(value(n))),
        ty,
        span: span(),
    }
}

fn integer(v: i128) -> Atom {
    Atom { id: AtomId(100), kind: AtomKind::Integer(v), ty: Type::Int32, span: span() }
}

fn unit() -> Atom {
    Atom { id: AtomId(101), kind: AtomKind::Unit, ty: Type::Unit, span: span() }
}

fn self_closure() -> Atom {
    Atom {
        id: AtomId(102),
        kind: AtomKind::Reference(Reference::SelfClosure(FunctionId::Lambda(LambdaId(7)))),
        ty: Type::Unit,
        span: span(),
    }
}

fn bound(n: u32, ty: Type) -> Pattern {
    Pattern::Binding { id: value(n), ty }
}

fn state(input: Option<Pattern>, bindings: Vec<Binding>, terminator: Terminator) -> State {
    State { input, bindings, terminator, span: span() }
}

fn call(argument: Atom, resume: usize) -> Terminator {
    Terminator::Call {
        callee: self_closure(),
        argument,
        resume: StateId(resume),
        live: Vec::new(),
        needs_environment: false,
    }
}

fn is_tail_call(state: &State) -> bool {
    matches!(state.terminator, Terminator::TailCall { .. })
}

fn is_call(state: &State) -> bool {
    matches!(state.terminator, Terminator::Call { .. })
}

#[test]
fn an_identity_result_continuation_becomes_a_tail_call() {
    let mut states = vec![
        state(None, vec![], call(integer(1), 1)),
        state(Some(bound(5, Type::Int32)), vec![], Terminator::Return(reference(5, Type::Int32))),
    ];
    normalize_calls(&mut states, 0);
    assert!(is_tail_call(&states[0]));
    assert!(matches!(&states[0].terminator, Terminator::TailCall { argument, .. } if *argument == integer(1)));
}

#[test]
fn a_continuation_that_transforms_the_result_keeps_its_call() {
    let add = Binding {
        pattern: bound(6, Type::Int32),
        operation: Operation::PrimitiveBinary {
            operator: BinaryPrimitive::Add,
            left: reference(5, Type::Int32),
            right: integer(1),
        },
        span: span(),
    };
    let mut states = vec![
        state(None, vec![], call(integer(1), 1)),
        state(Some(bound(5, Type::Int32)), vec![add], Terminator::Return(reference(6, Type::Int32))),
    ];
    normalize_calls(&mut states, 0);
    assert!(is_call(&states[0]));
}

#[test]
fn a_unit_result_passed_to_a_unit_return_is_forwarded() {
    let mut states = vec![
        state(None, vec![], call(integer(1), 1)),
        state(
            Some(Pattern::Wildcard { ty: Type::Unit, span: span() }),
            vec![],
            Terminator::Goto(StateId(2)),
        ),
        state(None, vec![], Terminator::Return(unit())),
    ];
    normalize_calls(&mut states, 0);
    assert!(is_tail_call(&states[0]));
}

#[test]
fn a_unit_continuation_with_an_external_effect_keeps_its_call() {
    let observe = Binding {
        pattern: bound(8, Type::Unit),
        operation: Operation::ExternalCall {
            id: ExternalOperationId(0),
            argument: reference(7, Type::Unit),
        },
        span: span(),
    };
    let mut states = vec![
        state(None, vec![], call(integer(1), 1)),
        state(Some(bound(7, Type::Unit)), vec![observe], Terminator::Return(reference(8, Type::Unit))),
    ];
    normalize_calls(&mut states, 0);
    assert!(is_call(&states[0]));
}

#[test]
fn a_result_copied_and_passed_through_a_jump_is_forwarded() {
    let copy = Binding {
        pattern: bound(6, Type::Int32),
        operation: Operation::Atom(reference(5, Type::Int32)),
        span: span(),
    };
    let mut states = vec![
        state(None, vec![], call(integer(1), 1)),
        state(
            Some(bound(5, Type::Int32)),
            vec![copy],
            Terminator::Jump { target: StateId(2), value: reference(6, Type::Int32) },
        ),
        state(Some(bound(9, Type::Int32)), vec![], Terminator::Return(reference(9, Type::Int32))),
    ];
    normalize_calls(&mut states, 0);
    assert!(is_tail_call(&states[0]));
}

#[test]
fn a_continuation_that_loops_forever_keeps_its_call() {
    let mut states = vec![
        state(None, vec![], call(integer(1), 1)),
        state(
            Some(bound(5, Type::Int32)),
            vec![],
            Terminator::Jump { target: StateId(1), value: reference(5, Type::Int32) },
        ),
    ];
    normalize_calls(&mut states, 0);
    assert!(is_call(&states[0]));
}

#[test]
fn calls_before_the_start_are_left_alone_and_normalizing_twice_changes_nothing() {
    let build = || {
        vec![
            state(None, vec![], call(integer(1), 2)),
            state(None, vec![], call(integer(2), 2)),
            state(Some(bound(5, Type::Int32)), vec![], Terminator::Return(reference(5, Type::Int32))),
        ]
    };
    let mut states = build();
    normalize_calls(&mut states, 1);
    assert!(is_call(&states[0]));
    assert!(is_tail_call(&states[1]));
    let once = states;
    let mut twice = build();
    normalize_calls(&mut twice, 1);
    normalize_calls(&mut twice, 1);
    assert_eq!(once, twice);
}

fn live(n: u32) -> LiveValue {
    LiveValue { id: value(n), ty: Type::Int32, span: span() }
}

#[test]
fn a_call_saves_the_values_its_continuation_reads_and_nothing_else() {
    let sum = Binding {
        pattern: bound(3, Type::Int32),
        operation: Operation::PrimitiveBinary {
            operator: BinaryPrimitive::Add,
            left: reference(2, Type::Int32),
            right: reference(1, Type::Int32),
        },
        span: span(),
    };
    let set = Binding {
        pattern: bound(1, Type::Int32),
        operation: Operation::Atom(integer(4)),
        span: span(),
    };
    let mut states = vec![
        state(Some(bound(2, Type::Int32)), vec![sum], Terminator::Return(reference(3, Type::Int32))),
        state(None, vec![set], call(reference(1, Type::Int32), 0)),
    ];
    let locals = vec![live(1), live(2), live(3)];
    resolve_liveness(&mut states, 0, &locals);
    match &states[1].terminator {
        Terminator::Call { live: saved, needs_environment, resume, .. } => {
            assert_eq!(saved, &vec![live(1)]);
            assert!(!needs_environment);
            assert_eq!(*resume, StateId(0));
        }
        _ => panic!("the call stays a call"),
    }
}

#[test]
fn a_continuation_that_reads_the_closure_needs_the_environment() {
    let mut states = vec![
        state(Some(bound(2, Type::Int32)), vec![], Terminator::Return(self_closure())),
        state(None, vec![], Terminator::Goto(StateId(0))),
        state(None, vec![], call(integer(0), 1)),
    ];
    let locals = vec![live(2)];
    resolve_liveness(&mut states, 0, &locals);
    match &states[2].terminator {
        Terminator::Call { live: saved, needs_environment, .. } => {
            assert!(saved.is_empty());
            assert!(*needs_environment);
        }
        _ => panic!("the call stays a call"),
    }
}

#[test]
fn successors_follow_the_terminator() {
    assert_eq!(successors(&Terminator::Goto(StateId(4))), vec![StateId(4)]);
    assert_eq!(successors(&Terminator::Return(unit())), Vec::<StateId>::new());
    assert_eq!(successors(&call(unit(), 3)), vec![StateId(3)]);
}

#[test]
fn liveness_reaches_around_a_loop() {
    let step = Binding {
        pattern: bound(4, Type::Int32),
        operation: Operation::PrimitiveBinary {
            operator: BinaryPrimitive::Add,
            left: reference(4, Type::Int32),
            right: integer(1),
        },
        span: span(),
    };
    let mut states = vec![
        state(None, vec![], Terminator::Return(reference(3, Type::Int32))),
        state(
            None,
            vec![],
            Terminator::PrimitiveBranch {
                operator: BinaryPrimitive::Less,
                left: reference(4, Type::Int32),
                right: integer(0),
                otherwise: StateId(2),
                then: StateId(0),
            },
        ),
        state(None, vec![step], Terminator::Goto(StateId(1))),
        state(None, vec![], call(integer(0), 1)),
    ];
    let locals = vec![live(3), live(4), live(5)];
    resolve_liveness(&mut states, 0, &locals);
    match &states[3].terminator {
        Terminator::Call { live: saved, needs_environment, .. } => {
            assert_eq!(saved, &vec![live(3), live(4)]);
            assert!(!needs_environment);
        }
        _ => panic!("the call stays a call"),
    }
}
