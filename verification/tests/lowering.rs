use lib::ast::{BinaryOperator, Name, Node};
use lib::check::ast::{Program as CheckedProgram, TopItem, Type};
use lib::check::specialization_identity::next_identities;
use lib::closure::ast::{
    Atom, AtomId, AtomKind, Binding, Block, CaptureField, Function, FunctionId, FunctionKind,
    Operation, Parameter, Pattern, Program, Reference, TopLevelBinding, TopLevelPattern,
};
use lib::control::ast::{StateId, Terminator};
use lib::control::lower;
use lib::core_ir::ast::{BinaryPrimitive, ProgramInterface, ValueId};
use lib::core_ir::interface::lower_interface;
use lib::core_ir::primitive::lower_binary_primitive;
use lib::resolve::{
    ExternalOperationId, LambdaId, TypeBinding, TypeId, ValueBinding, ValueId as SourceValueId,
    ValueOwner,
};
use lib::source::{FileId, Span};

fn span() -> Span {
    Span::new(FileId::new(0), 0, 0)
}

fn value(n: u32) -> ValueId {
    ValueId::Temporary(n)
}

fn reference(n: u32) -> Atom {
    Atom { id: AtomId(n as usize), kind: AtomKind::Reference(Reference::Binding(value(n))), ty: Type::Int32, span: span() }
}

fn integer(v: i128) -> Atom {
    Atom { id: AtomId(99), kind: AtomKind::Integer(v), ty: Type::Int32, span: span() }
}

fn empty_interface() -> ProgramInterface {
    ProgramInterface { type_aliases: vec![], external_types: vec![], externals: vec![] }
}

fn function(id: u32, body: Block) -> Function {
    Function {
        id: FunctionId::Lambda(LambdaId(id)),
        kind: FunctionKind::Ordinary { captures: vec![CaptureField { ty: Type::Int64 }] },
        parameter: Parameter { binding: Some(value(0)), ty: Type::Int32, span: span() },
        body,
        joins: vec![],
    }
}

#[test]
fn a_block_that_returns_its_final_call_ends_in_a_tail_call() {
    let call = Binding {
        pattern: Pattern::Binding { id: value(1), ty: Type::Int32 },
        operation: Operation::Call { callee: reference(0), argument: integer(1) },
        span: span(),
    };
    let program = Program {
        interface: empty_interface(),
        bindings: vec![],
        functions: vec![function(7, Block { bindings: vec![call], result: reference(1), span: span() })],
        entry: None,
        span: span(),
    };
    let lowered = lower(&program);
    assert_eq!(lowered.functions.len(), 1);
    assert_eq!(lowered.functions[0].environment.len(), 1);
    let entry = lowered.functions[0].entry;
    assert!(matches!(lowered.states[entry.0].terminator, Terminator::TailCall { .. }));
    assert_eq!(lowered.states.len(), 1);
}

#[test]
fn a_call_in_the_middle_of_a_block_resumes_in_a_new_state() {
    let call = Binding {
        pattern: Pattern::Binding { id: value(1), ty: Type::Int32 },
        operation: Operation::Call { callee: reference(0), argument: integer(1) },
        span: span(),
    };
    let add = Binding {
        pattern: Pattern::Binding { id: value(2), ty: Type::Int32 },
        operation: Operation::PrimitiveBinary { operator: BinaryPrimitive::Add, left: reference(1), right: reference(0) },
        span: span(),
    };
    let program = Program {
        interface: empty_interface(),
        bindings: vec![],
        functions: vec![function(7, Block { bindings: vec![call, add], result: reference(2), span: span() })],
        entry: None,
        span: span(),
    };
    let lowered = lower(&program);
    let entry = lowered.functions[0].entry;
    match &lowered.states[entry.0].terminator {
        Terminator::Call { resume, live, needs_environment, .. } => {
            assert!(resume.0 < entry.0);
            let resumed = &lowered.states[resume.0];
            assert!(matches!(resumed.input, Some(Pattern::Binding { id, .. }) if id == value(1)));
            assert!(matches!(resumed.terminator, Terminator::Goto(_)));
            assert_eq!(live.len(), 1);
            assert_eq!(live[0].id, value(0));
            assert!(!needs_environment);
        }
        _ => panic!("the entry state calls"),
    }
    for (index, state) in lowered.states.iter().enumerate() {
        for target in lib::control::liveness::successors(&state.terminator) {
            assert!(target.0 < index);
        }
    }
}

#[test]
fn a_top_level_value_becomes_a_returning_state_with_its_bindings() {
    let copy = Binding {
        pattern: Pattern::Binding { id: value(3), ty: Type::Int32 },
        operation: Operation::Atom(integer(5)),
        span: span(),
    };
    let program = Program {
        interface: empty_interface(),
        bindings: vec![TopLevelBinding {
            pattern: TopLevelPattern::Binding { id: value(3), name: "five".into(), ty: Type::Int32 },
            value: Block { bindings: vec![copy], result: reference(3), span: span() },
            span: span(),
        }],
        functions: vec![],
        entry: None,
        span: span(),
    };
    let lowered = lower(&program);
    let entry = lowered.bindings[0].entry;
    assert_eq!(entry, StateId(0));
    assert_eq!(lowered.states[0].bindings.len(), 1);
    assert!(matches!(lowered.states[0].terminator, Terminator::Return(_)));
    assert_eq!(lowered.bindings[0].pattern, program.bindings[0].pattern);
}

fn name(text: &str) -> Name {
    Name { text: text.into(), span: span() }
}

#[test]
fn the_interface_lists_aliases_external_types_and_operations_in_order() {
    let program = CheckedProgram {
        items: vec![
            Node::new(TopItem::ExternalType { binding: TypeBinding { id: TypeId(20), name: name("Handle") } }, span()),
            Node::new(
                TopItem::TypeAlias {
                    binding: TypeBinding { id: TypeId(21), name: name("Pair") },
                    ty: Type::Product(vec![Type::Int32, Type::Int32]),
                    target_alias: None,
                    element_aliases: vec![Some("Left".into()), None],
                },
                span(),
            ),
            Node::new(
                TopItem::ExternalOperation {
                    id: ExternalOperationId(2),
                    binding: ValueBinding { id: SourceValueId(50), name: name("send"), owner: ValueOwner::TopLevel },
                    lambda_id: LambdaId(9),
                    parameter: Type::Int32,
                    parameter_alias: None,
                    parameter_aliases: vec![],
                    result: Type::Unit,
                    result_alias: Some("Done".into()),
                },
                span(),
            ),
        ],
        span: span(),
    };
    let interface = lower_interface(&program);
    assert_eq!(interface.external_types.len(), 1);
    assert_eq!(interface.external_types[0].name, "Handle");
    assert_eq!(interface.type_aliases.len(), 1);
    assert_eq!(interface.type_aliases[0].name, "Pair");
    assert_eq!(interface.type_aliases[0].element_aliases, vec![Some("Left".to_string()), None]);
    assert_eq!(interface.externals.len(), 1);
    assert_eq!(interface.externals[0].name, "send");
    assert_eq!(interface.externals[0].result_alias, Some("Done".to_string()));

    let next = next_identities(&program).unwrap();
    assert_eq!(next.value, 51);
    assert_eq!(next.lambda, 10);
}

#[test]
fn identities_overflow_to_none() {
    let program = CheckedProgram {
        items: vec![Node::new(
            TopItem::ExternalOperation {
                id: ExternalOperationId(0),
                binding: ValueBinding { id: SourceValueId(u32::MAX), name: name("last"), owner: ValueOwner::TopLevel },
                lambda_id: LambdaId(1),
                parameter: Type::Unit,
                parameter_alias: None,
                parameter_aliases: vec![],
                result: Type::Unit,
                result_alias: None,
            },
            span(),
        )],
        span: span(),
    };
    assert!(next_identities(&program).is_none());
    let empty = CheckedProgram { items: vec![], span: span() };
    let next = next_identities(&empty).unwrap();
    assert_eq!((next.value, next.lambda), (1, 1));
}

#[test]
fn binary_operators_lower_to_primitives_of_the_same_name() {
    assert_eq!(lower_binary_primitive(BinaryOperator::Add), BinaryPrimitive::Add);
    assert_eq!(lower_binary_primitive(BinaryOperator::ShiftRight), BinaryPrimitive::ShiftRight);
    assert_eq!(lower_binary_primitive(BinaryOperator::BitwiseOr), BinaryPrimitive::BitwiseOr);
}

#[test]
fn an_ordinary_function_exposes_its_capture_fields() {
    let kind = FunctionKind::Ordinary { captures: vec![CaptureField { ty: Type::Int8 }] };
    assert_eq!(kind.captures().unwrap().len(), 1);
}
