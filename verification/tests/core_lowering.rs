use lib::core_ir::ast::PackedBuilderOperation;
use lib::core_ir::lowering::packed_build;
use lib::ast::{BinaryOperator, Name, Node, UnaryOperator};
use lib::check::ast::{
    Binding as CheckedBinding, BodyItem, Expression as CheckedExpression, ExpressionBlock,
    ExpressionKind as CheckedKind, Lambda as CheckedLambda, LambdaBody, Parameter as CheckedParameter,
    Pattern as CheckedPattern, Program as CheckedProgram, TopItem, Type,
};
use lib::check::types::bool_type;
use lib::core_ir::ast::{
    BinaryPrimitive, Expression, ExpressionKind, Pattern, TopLevelPattern, UnaryPrimitive, ValueId,
};
use lib::core_ir::lower;
use lib::resolve::{ExternalOperationId, LambdaId, ValueBinding, ValueId as SourceId, ValueOwner, ValueReference};
use lib::source::{FileId, Span};

fn at(start: usize, end: usize) -> Span {
    Span::new(FileId::new(0), start, end)
}

fn name(text: &str) -> Name {
    Name { text: text.to_string(), span: at(0, 1) }
}

fn value_binding(id: u32, text: &str) -> ValueBinding {
    ValueBinding { id: SourceId(id), name: name(text), owner: ValueOwner::TopLevel }
}

fn expression(kind: CheckedKind, ty: Type, span: Span) -> CheckedExpression {
    CheckedExpression { kind, ty, span }
}

fn integer(value: i128, span: Span) -> CheckedExpression {
    expression(CheckedKind::Integer(value), Type::Int32, span)
}

fn reference(id: u32, ty: Type, span: Span) -> CheckedExpression {
    expression(CheckedKind::Reference(ValueReference { id: SourceId(id), name: name("v") }), ty, span)
}

fn binary(operator: BinaryOperator, left: CheckedExpression, right: CheckedExpression, ty: Type) -> CheckedExpression {
    expression(
        CheckedKind::Binary {
            operator: Node { kind: operator, span: at(0, 1) },
            left: Box::new(left),
            right: Box::new(right),
        },
        ty,
        at(0, 20),
    )
}

fn top_binding(id: u32, value: CheckedExpression) -> Node<TopItem> {
    let ty = value.ty.clone();
    Node {
        kind: TopItem::Binding(Box::new(CheckedBinding {
            pattern: CheckedPattern::Binding { binding: value_binding(id, "x"), ty },
            annotation: None,
            value,
            span: at(0, 30),
        })),
        span: at(0, 30),
    }
}

fn program(items: Vec<Node<TopItem>>) -> CheckedProgram {
    CheckedProgram { items, span: at(0, 100) }
}

fn is_bool_value(e: &Expression, value: bool) -> bool {
    match &e.kind {
        ExpressionKind::SumInjection { index, value: inner } => {
            *index == usize::from(value) && matches!(inner.kind, ExpressionKind::Unit) && e.ty == bool_type()
        }
        _ => false,
    }
}

#[test]
fn arithmetic_becomes_primitives_and_parentheses_vanish() {
    let sum = binary(BinaryOperator::Add, integer(1, at(4, 5)), integer(2, at(8, 9)), Type::Int32);
    let negated = expression(
        CheckedKind::Unary {
            operator: Node { kind: UnaryOperator::Negate, span: at(0, 1) },
            operand: Box::new(expression(CheckedKind::Parenthesized(Box::new(sum)), Type::Int32, at(1, 10))),
        },
        Type::Int32,
        at(0, 10),
    );
    let lowered = lower(&program(vec![top_binding(5, negated)]));
    assert_eq!(lowered.bindings.len(), 1);
    let binding = &lowered.bindings[0];
    assert_eq!(
        binding.pattern,
        TopLevelPattern::Binding { id: ValueId::Source(SourceId(5)), name: "x".to_string(), ty: Type::Int32 }
    );
    match &binding.value.kind {
        ExpressionKind::PrimitiveUnary { operator, operand } => {
            assert_eq!(*operator, UnaryPrimitive::Negate);
            match &operand.kind {
                ExpressionKind::PrimitiveBinary { operator, left, right } => {
                    assert_eq!(*operator, BinaryPrimitive::Add);
                    assert_eq!(left.kind, ExpressionKind::Integer(1));
                    assert_eq!(right.kind, ExpressionKind::Integer(2));
                    assert_eq!(operand.span, at(0, 20));
                }
                other => panic!("unexpected {other:?}"),
            }
        }
        other => panic!("unexpected {other:?}"),
    }
}

#[test]
fn the_boolean_constants_and_negation_become_case_analyses() {
    let not_true = expression(
        CheckedKind::Unary {
            operator: Node { kind: UnaryOperator::LogicalNot, span: at(0, 1) },
            operand: Box::new(reference(1, bool_type(), at(1, 5))),
        },
        bool_type(),
        at(0, 5),
    );
    let lowered = lower(&program(vec![top_binding(5, not_true)]));
    let value = &lowered.bindings[0].value;
    assert_eq!(value.ty, bool_type());
    match &value.kind {
        ExpressionKind::Case { scrutinee, arms } => {
            assert!(is_bool_value(scrutinee, true));
            assert_eq!(arms.len(), 2);
            assert_eq!(arms[0].index, 0);
            assert!(is_bool_value(&arms[0].value, true));
            assert_eq!(arms[1].index, 1);
            assert!(is_bool_value(&arms[1].value, false));
            assert_eq!(arms[0].pattern, Pattern::Wildcard { ty: Type::Unit, span: at(0, 5) });
        }
        other => panic!("unexpected {other:?}"),
    }
}

#[test]
fn conjunction_evaluates_the_right_side_only_when_the_left_is_true() {
    let both = binary(
        BinaryOperator::LogicalAnd,
        reference(7, bool_type(), at(0, 1)),
        reference(8, bool_type(), at(5, 6)),
        bool_type(),
    );
    let lowered = lower(&program(vec![top_binding(5, both)]));
    match &lowered.bindings[0].value.kind {
        ExpressionKind::Case { scrutinee, arms } => {
            assert_eq!(scrutinee.kind, ExpressionKind::Reference(ValueId::Source(SourceId(7))));
            assert!(is_bool_value(&arms[0].value, false));
            assert_eq!(arms[1].value.kind, ExpressionKind::Reference(ValueId::Source(SourceId(8))));
        }
        other => panic!("unexpected {other:?}"),
    }
}

#[test]
fn boolean_equality_binds_both_sides_to_fresh_temporaries() {
    let same = binary(
        BinaryOperator::Equal,
        reference(7, bool_type(), at(0, 1)),
        reference(8, bool_type(), at(5, 6)),
        bool_type(),
    );
    let lowered = lower(&program(vec![top_binding(5, same)]));
    match &lowered.bindings[0].value.kind {
        ExpressionKind::Let { binding, body } => {
            assert_eq!(binding.pattern, Pattern::Binding { id: ValueId::Temporary(0), ty: bool_type() });
            assert_eq!(binding.value.kind, ExpressionKind::Reference(ValueId::Source(SourceId(7))));
            match &body.kind {
                ExpressionKind::Let { binding, body } => {
                    assert_eq!(binding.pattern, Pattern::Binding { id: ValueId::Temporary(1), ty: bool_type() });
                    match &body.kind {
                        ExpressionKind::Case { scrutinee, arms } => {
                            assert_eq!(scrutinee.kind, ExpressionKind::Reference(ValueId::Temporary(0)));
                            match &arms[0].value.kind {
                                ExpressionKind::Case { scrutinee, arms } => {
                                    assert_eq!(scrutinee.kind, ExpressionKind::Reference(ValueId::Temporary(1)));
                                    assert!(is_bool_value(&arms[0].value, true));
                                    assert!(is_bool_value(&arms[1].value, false));
                                }
                                other => panic!("unexpected {other:?}"),
                            }
                        }
                        other => panic!("unexpected {other:?}"),
                    }
                }
                other => panic!("unexpected {other:?}"),
            }
        }
        other => panic!("unexpected {other:?}"),
    }
}

#[test]
fn external_operations_become_lambdas_before_the_bindings() {
    let operation = |id: u32, value: u32, lambda: u32, parameter: Type| Node {
        kind: TopItem::ExternalOperation {
            id: ExternalOperationId(id),
            binding: value_binding(value, "op"),
            lambda_id: LambdaId(lambda),
            parameter,
            parameter_alias: None,
            parameter_aliases: vec![],
            result: Type::Unit,
            result_alias: None,
        },
        span: at(40, 50),
    };
    let lowered = lower(&program(vec![
        top_binding(5, integer(3, at(0, 1))),
        operation(0, 10, 20, Type::Int32),
        operation(1, 11, 21, Type::Unit),
    ]));
    assert_eq!(lowered.bindings.len(), 3);
    assert_eq!(lowered.interface.externals.len(), 2);
    match &lowered.bindings[0].value.kind {
        ExpressionKind::Lambda(lambda) => {
            assert_eq!(lambda.id, LambdaId(20));
            assert_eq!(lambda.parameter.binding, Some(ValueId::Temporary(0)));
            match &lambda.body.kind {
                ExpressionKind::ExternalCall { id, argument } => {
                    assert_eq!(*id, ExternalOperationId(0));
                    assert_eq!(argument.kind, ExpressionKind::Reference(ValueId::Temporary(0)));
                }
                other => panic!("unexpected {other:?}"),
            }
        }
        other => panic!("unexpected {other:?}"),
    }
    match &lowered.bindings[1].value.kind {
        ExpressionKind::Lambda(lambda) => {
            assert_eq!(lambda.parameter.binding, None);
            match &lambda.body.kind {
                ExpressionKind::ExternalCall { argument, .. } => {
                    assert_eq!(argument.kind, ExpressionKind::Unit)
                }
                other => panic!("unexpected {other:?}"),
            }
        }
        other => panic!("unexpected {other:?}"),
    }
    assert_eq!(lowered.bindings[2].value.kind, ExpressionKind::Integer(3));
}

fn parameter(id: u32, ty: Type, span: Span) -> CheckedParameter {
    CheckedParameter { binding: value_binding(id, "p"), ty, span }
}

#[test]
fn a_lambda_of_several_parameters_takes_their_product_apart() {
    let lambda = CheckedLambda {
        id: LambdaId(3),
        self_binding: None,
        captures: vec![],
        parameters: vec![parameter(1, Type::Int32, at(2, 3)), parameter(2, Type::Int64, at(5, 6))],
        body: LambdaBody {
            items: vec![BodyItem::Expression(integer(9, at(10, 11)))],
            result: Box::new(reference(2, Type::Int64, at(13, 14))),
            span: at(9, 15),
        },
    };
    let function = Type::Function {
        parameter: Box::new(Type::Product(vec![Type::Int32, Type::Int64])),
        result: Box::new(Type::Int64),
    };
    let lowered = lower(&program(vec![top_binding(5, expression(CheckedKind::Lambda(lambda), function, at(0, 15)))]));
    match &lowered.bindings[0].value.kind {
        ExpressionKind::Lambda(lambda) => {
            assert_eq!(lambda.parameter.binding, Some(ValueId::Temporary(0)));
            assert_eq!(lambda.parameter.ty, Type::Product(vec![Type::Int32, Type::Int64]));
            assert_eq!(lambda.parameter.span, at(2, 3));
            match &lambda.body.kind {
                ExpressionKind::Let { binding, body } => {
                    assert_eq!(
                        binding.pattern,
                        Pattern::Product {
                            elements: vec![
                                Pattern::Binding { id: ValueId::Source(SourceId(1)), ty: Type::Int32 },
                                Pattern::Binding { id: ValueId::Source(SourceId(2)), ty: Type::Int64 },
                            ],
                            ty: Type::Product(vec![Type::Int32, Type::Int64]),
                            span: at(9, 15),
                        }
                    );
                    assert_eq!(binding.value.kind, ExpressionKind::Reference(ValueId::Temporary(0)));
                    match &body.kind {
                        ExpressionKind::Let { binding, body: result } => {
                            assert_eq!(binding.pattern, Pattern::Wildcard { ty: Type::Int32, span: at(10, 11) });
                            assert_eq!(binding.value.kind, ExpressionKind::Integer(9));
                            assert_eq!(body.span, at(10, 14));
                            assert_eq!(result.kind, ExpressionKind::Reference(ValueId::Source(SourceId(2))));
                        }
                        other => panic!("unexpected {other:?}"),
                    }
                }
                other => panic!("unexpected {other:?}"),
            }
        }
        other => panic!("unexpected {other:?}"),
    }
}

#[test]
fn an_if_becomes_a_case_whose_first_arm_is_the_else_branch() {
    let block = |value: i128, span: Span| ExpressionBlock {
        items: vec![],
        result: Box::new(integer(value, span)),
        span,
    };
    let choice = expression(
        CheckedKind::If {
            condition: Box::new(reference(1, bool_type(), at(3, 7))),
            then_branch: block(1, at(10, 11)),
            else_branch: block(2, at(20, 21)),
        },
        Type::Int32,
        at(0, 22),
    );
    let lowered = lower(&program(vec![top_binding(5, choice)]));
    match &lowered.bindings[0].value.kind {
        ExpressionKind::Case { scrutinee, arms } => {
            assert!(is_bool_value(scrutinee, true));
            assert_eq!(arms[0].value.kind, ExpressionKind::Integer(2));
            assert_eq!(arms[0].span, at(20, 21));
            assert_eq!(arms[1].value.kind, ExpressionKind::Integer(1));
            assert_eq!(arms[1].span, at(10, 11));
        }
        other => panic!("unexpected {other:?}"),
    }
}

#[test]
fn a_sum_elimination_calls_only_the_selected_continuation_in_its_arm() {
    let sum = Type::Sum(vec![Type::Int32, Type::Unit]);
    let from_number = Type::Function { parameter: Box::new(Type::Int32), result: Box::new(Type::Int64) };
    let from_unit = Type::Function { parameter: Box::new(Type::Unit), result: Box::new(Type::Int64) };
    let eliminated = expression(
        CheckedKind::SumElimination {
            scrutinee: Box::new(reference(3, sum.clone(), at(0, 5))),
            continuations: vec![
                reference(7, from_number, at(6, 11)),
                reference(8, from_unit, at(13, 18)),
            ],
        },
        Type::Int64,
        at(0, 19),
    );
    let lowered = lower(&program(vec![top_binding(5, eliminated)]));
    let value = &lowered.bindings[0].value;
    assert_eq!(value.ty, Type::Int64);
    assert_eq!(value.span, at(0, 19));
    match &value.kind {
        ExpressionKind::Case { scrutinee, arms } => {
            assert_eq!(scrutinee.kind, ExpressionKind::Reference(ValueId::Source(SourceId(3))));
            assert_eq!(scrutinee.ty, sum);
            assert_eq!(arms.len(), 2);
            let expected = [
                (SourceId(7), ValueId::Temporary(0), Type::Int32, at(6, 11)),
                (SourceId(8), ValueId::Temporary(1), Type::Unit, at(13, 18)),
            ];
            for (index, (arm, (continuation, payload, member, span))) in arms.iter().zip(expected).enumerate() {
                assert_eq!(arm.index, index);
                assert_eq!(arm.span, span);
                assert_eq!(arm.pattern, Pattern::Binding { id: payload, ty: member.clone() });
                assert_eq!(arm.value.ty, Type::Int64);
                match &arm.value.kind {
                    ExpressionKind::Call { callee, argument } => {
                        assert_eq!(callee.kind, ExpressionKind::Reference(ValueId::Source(continuation)));
                        assert_eq!(argument.kind, ExpressionKind::Reference(payload));
                        assert_eq!(argument.ty, member);
                    }
                    other => panic!("unexpected {other:?}"),
                }
            }
        }
        other => panic!("unexpected {other:?}"),
    }
}

fn let_parts(e: &Expression) -> (&Pattern, &Expression, &Expression) {
    match &e.kind {
        ExpressionKind::Let { binding, body } => (&binding.pattern, &binding.value, body),
        other => panic!("expected a let, found {other:?}"),
    }
}

#[test]
fn a_packed_build_binds_the_callback_and_calls_it_with_the_builder_capabilities() {
    let callback_type = Type::Function { parameter: Box::new(Type::Unit), result: Box::new(Type::Unit) };
    let callback = reference(4, callback_type.clone(), at(2, 6));
    let packed = Type::Packed(Box::new(Type::Int32));
    let build = expression(CheckedKind::Unit, packed.clone(), at(0, 10));
    let out = packed_build(None, &callback, &Type::Int32, &build, 20, 7);
    let (pattern, value, rest) = let_parts(&out);
    assert_eq!(*pattern, Pattern::Binding { id: ValueId::Temporary(20), ty: callback_type.clone() });
    assert_eq!(value.kind, ExpressionKind::Reference(ValueId::Source(SourceId(4))));
    let (pattern, builder, rest) = let_parts(rest);
    assert_eq!(*pattern, Pattern::Binding { id: ValueId::Temporary(21), ty: Type::Address });
    match &builder.kind {
        ExpressionKind::PackedBuilder { operation, element, argument } => {
            assert_eq!(*operation, PackedBuilderOperation::Start);
            assert_eq!(*element, Type::Int32);
            assert_eq!(argument.kind, ExpressionKind::Unit);
        }
        other => panic!("unexpected {other:?}"),
    }
    let (_, call, finish) = let_parts(rest);
    match &call.kind {
        ExpressionKind::Call { callee, argument } => {
            assert_eq!(callee.kind, ExpressionKind::Reference(ValueId::Temporary(20)));
            match &argument.kind {
                ExpressionKind::Product(parts) => {
                    assert_eq!(parts.len(), 3);
                    let expected = [
                        (PackedBuilderOperation::New, 7, 22, Some(ValueId::Temporary(23))),
                        (PackedBuilderOperation::Get, 8, 24, Some(ValueId::Temporary(25))),
                        (PackedBuilderOperation::Put, 9, 26, Some(ValueId::Temporary(27))),
                    ];
                    for (part, (op, id, capture, parameter)) in parts.iter().zip(expected) {
                        match &part.kind {
                            ExpressionKind::Lambda(function) => {
                                assert_eq!(function.id, LambdaId(id));
                                assert_eq!(function.captures[0].source, ValueId::Temporary(21));
                                assert_eq!(function.captures[0].binding, ValueId::Temporary(capture));
                                assert_eq!(function.parameter.binding, parameter);
                                match &function.body.kind {
                                    ExpressionKind::PackedBuilder { operation, .. } => assert_eq!(*operation, op),
                                    other => panic!("unexpected {other:?}"),
                                }
                            }
                            other => panic!("unexpected {other:?}"),
                        }
                    }
                }
                other => panic!("unexpected {other:?}"),
            }
        }
        other => panic!("unexpected {other:?}"),
    }
    match &finish.kind {
        ExpressionKind::PackedBuilder { operation, argument, .. } => {
            assert_eq!(*operation, PackedBuilderOperation::Finish);
            assert_eq!(argument.kind, ExpressionKind::Reference(ValueId::Temporary(21)));
        }
        other => panic!("unexpected {other:?}"),
    }
    assert_eq!(finish.ty, packed);
}

#[test]
fn a_packed_build_from_a_source_edits_it() {
    let packed = Type::Packed(Box::new(Type::Int8));
    let callback_type = Type::Function { parameter: Box::new(Type::Unit), result: Box::new(Type::Unit) };
    let source = reference(5, packed.clone(), at(1, 2));
    let callback = reference(6, callback_type, at(3, 4));
    let build = expression(CheckedKind::Unit, packed, at(0, 5));
    let out = packed_build(Some(&source), &callback, &Type::Int8, &build, 0, 0);
    let (pattern, value, rest) = let_parts(&out);
    assert!(matches!(pattern, Pattern::Binding { id: ValueId::Temporary(2), .. }));
    assert_eq!(value.kind, ExpressionKind::Reference(ValueId::Source(SourceId(5))));
    let (_, _, rest) = let_parts(rest);
    let (_, builder, _) = let_parts(rest);
    match &builder.kind {
        ExpressionKind::PackedBuilder { operation, argument, .. } => {
            assert_eq!(*operation, PackedBuilderOperation::Edit);
            assert_eq!(argument.kind, ExpressionKind::Reference(ValueId::Temporary(2)));
        }
        other => panic!("unexpected {other:?}"),
    }
}
