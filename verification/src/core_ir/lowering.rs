use vstd::prelude::*;

use crate::ast::{BinaryOperator, UnaryOperator};
use crate::closure::copy::copy_bytes;
use crate::ast::Node;
use crate::check::ast::{
    lemma_deep_equal_reflexive, lemma_deep_equal_symmetric, lemma_deep_equal_transitive,
    all_deep_equal, lemma_all_deep_equal_at, Binding as CheckedBinding, BodyItem as CheckedItem, Capture as CheckedCapture, CaseArm as CheckedArm,
    Expression as CheckedExpression, ExpressionBlock, ExpressionKind as CheckedKind,
    Lambda as CheckedLambda, LambdaBody, Parameter as CheckedParameter,
    Pattern as CheckedPattern, Program as CheckedProgram, TopItem, Type,
};
use crate::check::types::{bool_type, is_bool_type, is_unit};
use crate::resolve::{ExternalOperationId, LambdaId, ValueBinding, FALSE_VALUE, TRUE_VALUE};
use crate::source::Span;

use super::ast::{
    Binding, Capture, CaseArm, Expression, ExpressionKind, Lambda, PackedBuilderOperation,
    Parameter, Pattern, Program, TopLevelBinding, TopLevelPattern, UnaryPrimitive, ValueId,
};
use super::interface::{external_positions, is_interface_of, lower_interface};
use super::primitive::{
    is_primitive_operator, lemma_lowering_keeps_operation, lower_binary_primitive, operator_symbol,
    primitive_of, primitive_symbol,
};

verus! {

/// The binary operators that lowering refuses: symbol access and stores have their own nodes
/// before this pass.
pub open spec fn is_refused_binary(operator: BinaryOperator) -> bool {
    operator is SymbolAt || operator is Store
}

/// `e` and its parts use only operators that lowering takes.
pub open spec fn lowerable(e: CheckedExpression) -> bool
    decreases e, 0nat,
{
    match e.kind {
        CheckedKind::Product(elements) => lowerable_list(elements@, 0),
        CheckedKind::Parenthesized(inner) => lowerable(*inner),
        CheckedKind::Lambda(lambda) => lowerable_lambda_body(lambda.body, 0),
        CheckedKind::Call { callee, argument } => lowerable(*callee) && lowerable(*argument),
        CheckedKind::SymbolLength { value } => lowerable(*value),
        CheckedKind::SymbolAt { argument } => lowerable(*argument),
        CheckedKind::Memory { argument, .. } => lowerable(*argument),
        CheckedKind::NumericConversion { value } => lowerable(*value),
        CheckedKind::SumInjection { value, .. } => lowerable(*value),
        CheckedKind::SumElimination { scrutinee, continuations } => scrutinee.ty is Sum && lowerable(
            *scrutinee,
        ) && lowerable_list(continuations@, 0),
        CheckedKind::If { condition, then_branch, else_branch } => lowerable(*condition)
            && lowerable_block(then_branch, 0) && lowerable_block(else_branch, 0),
        CheckedKind::Case { scrutinee, arms } => lowerable(*scrutinee) && lowerable_arms(arms@, 0),
        CheckedKind::Unary { operator, operand } => !(operator.kind is SymbolLength) && lowerable(
            *operand,
        ),
        CheckedKind::Binary { operator, left, right } => !is_refused_binary(operator.kind)
            && lowerable(*left) && lowerable(*right),
        _ => true,
    }
}

pub open spec fn lowerable_list(elements: Seq<CheckedExpression>, from: nat) -> bool
    decreases elements, elements.len() - from,
{
    from >= elements.len() || (lowerable(elements[from as int]) && lowerable_list(
        elements,
        from + 1,
    ))
}

pub open spec fn lowerable_item(item: CheckedItem) -> bool
    decreases item, 0nat,
{
    match item {
        CheckedItem::Binding(binding) => lowerable(binding.value),
        CheckedItem::Expression(value) => lowerable(value),
    }
}

pub open spec fn lowerable_block(block: ExpressionBlock, from: nat) -> bool
    decreases block, block.items@.len() - from,
{
    if from >= block.items@.len() {
        lowerable(*block.result)
    } else {
        lowerable_item(block.items@[from as int]) && lowerable_block(block, from + 1)
    }
}

pub open spec fn lowerable_lambda_body(body: LambdaBody, from: nat) -> bool
    decreases body, body.items@.len() - from,
{
    if from >= body.items@.len() {
        lowerable(*body.result)
    } else {
        lowerable_item(body.items@[from as int]) && lowerable_lambda_body(body, from + 1)
    }
}

pub open spec fn lowerable_arms(arms: Seq<CheckedArm>, from: nat) -> bool
    decreases arms, arms.len() - from,
{
    from >= arms.len() || (lowerable_block(arms[from as int].body, 0) && lowerable_arms(
        arms,
        from + 1,
    ))
}

/// `e` is `==` or `!=` on booleans, which lowers to a case analysis of both sides.
pub open spec fn is_bool_equality(operator: BinaryOperator, left: CheckedExpression) -> bool {
    (operator is Equal || operator is NotEqual) && is_bool_type(left.ty)
}

/// The members of a sum type; none for any other type.
pub open spec fn sum_members(ty: Type) -> Seq<Type> {
    match ty {
        Type::Sum(members) => members@,
        _ => Seq::empty(),
    }
}

/// How many arms eliminating a value of type `ty` with `continuations` makes: one for each
/// continuation that has a member of the sum to take.
pub open spec fn elimination_width(continuations: Seq<CheckedExpression>, ty: Type) -> nat {
    let members = sum_members(ty);
    if continuations.len() <= members.len() {
        continuations.len()
    } else {
        members.len()
    }
}

/// How many temporaries lowering `e` makes.
pub open spec fn temporaries(e: CheckedExpression) -> nat
    decreases e, 0nat,
{
    match e.kind {
        CheckedKind::Product(elements) => list_temporaries(elements@, elements@.len() as nat),
        CheckedKind::Parenthesized(inner) => temporaries(*inner),
        CheckedKind::Lambda(lambda) => (if lambda.parameters@.len() > 1 {
            1nat
        } else {
            0nat
        }) + lambda_body_temporaries(lambda.body, 0),
        CheckedKind::Call { callee, argument } => temporaries(*callee) + temporaries(*argument),
        CheckedKind::SymbolLength { value } => temporaries(*value),
        CheckedKind::SymbolAt { argument } => temporaries(*argument),
        CheckedKind::Memory { argument, .. } => temporaries(*argument),
        CheckedKind::NumericConversion { value } => temporaries(*value),
        CheckedKind::SumInjection { value, .. } => temporaries(*value),
        CheckedKind::SumElimination { scrutinee, continuations } => {
            let n = elimination_width(continuations@, scrutinee.ty);
            n + list_temporaries(continuations@, n) + temporaries(*scrutinee)
        },
        CheckedKind::If { condition, then_branch, else_branch } => temporaries(*condition)
            + block_temporaries(then_branch, 0) + block_temporaries(else_branch, 0),
        CheckedKind::Case { scrutinee, arms } => temporaries(*scrutinee) + arms_temporaries(
            arms@,
            arms@.len() as nat,
        ),
        CheckedKind::Unary { operand, .. } => temporaries(*operand),
        CheckedKind::Binary { operator, left, right } => (if !(operator.kind is LogicalAnd
            || operator.kind is LogicalOr) && is_bool_equality(operator.kind, *left) {
            2nat
        } else {
            0nat
        }) + temporaries(*left) + temporaries(*right),
        _ => 0,
    }
}

/// How many temporaries lowering `elements[..upto]` makes.
pub open spec fn list_temporaries(elements: Seq<CheckedExpression>, upto: nat) -> nat
    decreases elements, upto,
{
    if upto == 0 || upto > elements.len() {
        0
    } else {
        list_temporaries(elements, (upto - 1) as nat) + temporaries(elements[upto - 1])
    }
}

pub open spec fn item_temporaries(item: CheckedItem) -> nat
    decreases item, 0nat,
{
    match item {
        CheckedItem::Binding(binding) => temporaries(binding.value),
        CheckedItem::Expression(value) => temporaries(value),
    }
}

/// How many temporaries lowering the items `block.items[from..]` and the result makes.
pub open spec fn block_temporaries(block: ExpressionBlock, from: nat) -> nat
    decreases block, block.items@.len() - from,
{
    if from >= block.items@.len() {
        temporaries(*block.result)
    } else {
        item_temporaries(block.items@[from as int]) + block_temporaries(block, from + 1)
    }
}

pub open spec fn lambda_body_temporaries(body: LambdaBody, from: nat) -> nat
    decreases body, body.items@.len() - from,
{
    if from >= body.items@.len() {
        temporaries(*body.result)
    } else {
        item_temporaries(body.items@[from as int]) + lambda_body_temporaries(body, from + 1)
    }
}

/// How many temporaries lowering the arms `arms[..upto]` makes.
pub open spec fn arms_temporaries(arms: Seq<CheckedArm>, upto: nat) -> nat
    decreases arms, upto,
{
    if upto == 0 || upto > arms.len() {
        0
    } else {
        arms_temporaries(arms, (upto - 1) as nat) + block_temporaries(arms[upto - 1].body, 0)
    }
}

/// `out` keeps the type and span of `e`.
pub open spec fn same_shell(out: Expression, e: CheckedExpression) -> bool {
    out.ty.deep_equal(e.ty) && out.span == e.span
}

/// `e` is the unit value at `span`.
pub open spec fn is_unit_value(e: Expression, span: Span) -> bool {
    e.kind is Unit && e.ty == Type::Unit && e.span == span
}

/// `e` is the boolean `value` at `span`: the injection of unit into the second member for true,
/// the first for false.
pub open spec fn is_bool_value(e: Expression, value: bool, span: Span) -> bool {
    &&& e.kind matches ExpressionKind::SumInjection { index, value: inner }
    &&& index == (if value {
        1usize
    } else {
        0usize
    })
    &&& is_unit_value(*inner, span)
    &&& is_bool_type(e.ty)
    &&& e.span == span
}

/// `arm` matches anything, selects variant `index` and covers `span`.
pub open spec fn is_wildcard_arm(arm: CaseArm, index: usize, span: Span) -> bool {
    &&& arm.index == index
    &&& arm.pattern matches Pattern::Wildcard { ty, span: at }
    &&& ty == Type::Unit
    &&& at == span
    &&& arm.span == span
}

/// `e` reads the boolean value `id` and gives `zero` when it is false and `one` when it is true.
pub open spec fn is_bool_case_reference(e: Expression, id: ValueId, zero: bool, one: bool, span: Span) -> bool {
    &&& e.kind matches ExpressionKind::Case { scrutinee, arms }
    &&& scrutinee.kind == ExpressionKind::Reference(id)
    &&& is_bool_type(scrutinee.ty)
    &&& scrutinee.span == span
    &&& arms@.len() == 2
    &&& is_wildcard_arm(arms@[0], 0, span)
    &&& is_wildcard_arm(arms@[1], 1, span)
    &&& is_bool_value(arms@[0].value, zero, span)
    &&& is_bool_value(arms@[1].value, one, span)
    &&& is_bool_type(e.ty)
    &&& e.span == span
}

/// `out` is `pattern` in the core program.
pub open spec fn lowers_pattern(pattern: CheckedPattern, out: Pattern) -> bool
    decreases pattern, 0nat,
{
    match pattern {
        CheckedPattern::Binding { binding, ty } => out matches Pattern::Binding { id, ty: t } && id
            == ValueId::Source(binding.id) && t.deep_equal(ty),
        CheckedPattern::Wildcard { ty, span } => out matches Pattern::Wildcard { ty: t, span: s }
            && t.deep_equal(ty) && s == span,
        CheckedPattern::Product { elements, ty, span } => out matches Pattern::Product {
            elements: outs,
            ty: t,
            span: s,
        } && t.deep_equal(ty) && s == span && outs@.len() == elements@.len() && lowers_patterns(
            elements@,
            outs@,
            0,
        ),
    }
}

pub open spec fn lowers_patterns(patterns: Seq<CheckedPattern>, outs: Seq<Pattern>, from: nat) -> bool
    decreases patterns, patterns.len() - from,
{
    from >= patterns.len() || (lowers_pattern(patterns[from as int], outs[from as int])
        && lowers_patterns(patterns, outs, from + 1))
}

/// `out` is the top-level `pattern` in the core program.
pub open spec fn lowers_top_level_pattern(pattern: CheckedPattern, out: TopLevelPattern) -> bool
    decreases pattern, 0nat,
{
    match pattern {
        CheckedPattern::Binding { binding, ty } => out matches TopLevelPattern::Binding {
            id,
            name,
            ty: t,
        } && id == ValueId::Source(binding.id) && name == binding.name.text && t.deep_equal(ty),
        CheckedPattern::Wildcard { ty, span } => out matches TopLevelPattern::Wildcard {
            ty: t,
            span: s,
        } && t.deep_equal(ty) && s == span,
        CheckedPattern::Product { elements, ty, span } => out matches TopLevelPattern::Product {
            elements: outs,
            ty: t,
            span: s,
        } && t.deep_equal(ty) && s == span && outs@.len() == elements@.len()
            && lowers_top_level_patterns(elements@, outs@, 0),
    }
}

pub open spec fn lowers_top_level_patterns(
    patterns: Seq<CheckedPattern>,
    outs: Seq<TopLevelPattern>,
    from: nat,
) -> bool
    decreases patterns, patterns.len() - from,
{
    from >= patterns.len() || (lowers_top_level_pattern(patterns[from as int], outs[from as int])
        && lowers_top_level_patterns(patterns, outs, from + 1))
}

/// The span from the start of the earlier to the end of the later of two spans, in the file of
/// the first.
pub open spec fn joined(first: Span, second: Span) -> Span {
    Span {
        file: first.file,
        start: if first.start <= second.start {
            first.start
        } else {
            second.start
        },
        end: if first.end >= second.end {
            first.end
        } else {
            second.end
        },
    }
}

/// `out` is `e` lowered with temporaries numbered from `first`: parentheses vanish, `if`, `!`,
/// `&&`, `||` and equality of booleans become case analyses, the boolean constants become
/// injections, and the other operators become primitives.
pub open spec fn lowers(e: CheckedExpression, out: Expression, first: nat) -> bool
    decreases e, 1nat,
{
    match e.kind {
        CheckedKind::Reference(reference) => if reference.id.0 == FALSE_VALUE {
            is_bool_value(out, false, e.span)
        } else if reference.id.0 == TRUE_VALUE {
            is_bool_value(out, true, e.span)
        } else {
            out.kind == ExpressionKind::Reference(ValueId::Source(reference.id)) && same_shell(out, e)
        },
        CheckedKind::Integer(value) => out.kind == ExpressionKind::Integer(value) && same_shell(
            out,
            e,
        ),
        CheckedKind::Float(bits) => out.kind == ExpressionKind::Float(bits) && same_shell(out, e),
        CheckedKind::Symbol(bytes) => out.kind matches ExpressionKind::Symbol(copy) && copy@
            == bytes@ && same_shell(out, e),
        CheckedKind::StorageSize(ty) => out.kind matches ExpressionKind::StorageSize(copy)
            && copy.deep_equal(ty) && same_shell(out, e),
        CheckedKind::Unit => out.kind is Unit && same_shell(out, e),
        CheckedKind::Product(elements) => out.kind matches ExpressionKind::Product(outs)
            && outs@.len() == elements@.len() && lowers_list(elements@, outs@, 0, first)
            && same_shell(out, e),
        CheckedKind::Parenthesized(inner) => lowers(*inner, out, first),
        CheckedKind::Lambda(lambda) => out.kind matches ExpressionKind::Lambda(lowered)
            && lowers_lambda(lambda, lowered, first) && same_shell(out, e),
        CheckedKind::Call { callee, argument } => out.kind matches ExpressionKind::Call {
            callee: c,
            argument: a,
        } && lowers(*callee, *c, first) && lowers(*argument, *a, first + temporaries(*callee))
            && same_shell(out, e),
        CheckedKind::SymbolLength { value } => out.kind matches ExpressionKind::SymbolLength {
            value: v,
        } && lowers(*value, *v, first) && same_shell(out, e),
        CheckedKind::SymbolAt { argument } => out.kind matches ExpressionKind::SymbolAt {
            argument: a,
        } && lowers(*argument, *a, first) && same_shell(out, e),
        CheckedKind::MemoryFunction { primitive } => out.kind == ExpressionKind::MemoryFunction {
            primitive,
        } && same_shell(out, e),
        CheckedKind::Memory { primitive, argument } => out.kind matches ExpressionKind::Memory {
            primitive: p,
            argument: a,
        } && p == primitive && lowers(*argument, *a, first) && same_shell(out, e),
        CheckedKind::NumericConversion { value } => out.kind matches ExpressionKind::NumericConversion {
            value: v,
        } && lowers(*value, *v, first) && same_shell(out, e),
        CheckedKind::SumInjection { index, value } => out.kind matches ExpressionKind::SumInjection {
            index: i,
            value: v,
        } && i == index && lowers(*value, *v, first) && same_shell(out, e),
        CheckedKind::SumElimination { scrutinee, continuations } => {
            let n = elimination_width(continuations@, scrutinee.ty);
            &&& out.kind matches ExpressionKind::Case { scrutinee: s, arms }
            &&& arms@.len() == n
            &&& lowers_continuations(
                continuations@,
                sum_members(scrutinee.ty),
                e.ty,
                arms@,
                0,
                n,
                first,
            )
            &&& lowers(*scrutinee, *s, first + n + list_temporaries(continuations@, n))
            &&& same_shell(out, e)
        },
        CheckedKind::If { condition, then_branch, else_branch } => {
            let then_first = first + block_temporaries(else_branch, 0);
            let condition_first = then_first + block_temporaries(then_branch, 0);
            &&& out.kind matches ExpressionKind::Case { scrutinee, arms }
            &&& arms@.len() == 2
            &&& is_wildcard_arm(arms@[0], 0, else_branch.span)
            &&& is_wildcard_arm(arms@[1], 1, then_branch.span)
            &&& lowers_block(else_branch, 0, arms@[0].value, first)
            &&& lowers_block(then_branch, 0, arms@[1].value, then_first)
            &&& lowers(*condition, *scrutinee, condition_first)
            &&& same_shell(out, e)
        },
        CheckedKind::Case { scrutinee, arms } => out.kind matches ExpressionKind::Case {
            scrutinee: s,
            arms: outs,
        } && outs@.len() == arms@.len() && lowers(*scrutinee, *s, first) && lowers_arms(
            arms@,
            outs@,
            0,
            first + temporaries(*scrutinee),
        ) && same_shell(out, e),
        CheckedKind::Unary { operator, operand } => if operator.kind is LogicalNot {
            &&& out.kind matches ExpressionKind::Case { scrutinee, arms }
            &&& arms@.len() == 2
            &&& is_wildcard_arm(arms@[0], 0, e.span)
            &&& is_wildcard_arm(arms@[1], 1, e.span)
            &&& is_bool_value(arms@[0].value, true, e.span)
            &&& is_bool_value(arms@[1].value, false, e.span)
            &&& lowers(*operand, *scrutinee, first)
            &&& is_bool_type(out.ty)
            &&& out.span == e.span
        } else {
            out.kind matches ExpressionKind::PrimitiveUnary { operator: o, operand: x } && o == (
            if operator.kind is Negate {
                UnaryPrimitive::Negate
            } else {
                UnaryPrimitive::BitwiseNot
            }) && lowers(*operand, *x, first) && same_shell(out, e)
        },
        CheckedKind::Binary { operator, left, right } => if operator.kind is LogicalAnd
            || operator.kind is LogicalOr {
            &&& out.kind matches ExpressionKind::Case { scrutinee, arms }
            &&& arms@.len() == 2
            &&& is_wildcard_arm(arms@[0], 0, e.span)
            &&& is_wildcard_arm(arms@[1], 1, e.span)
            &&& lowers(*left, *scrutinee, first)
            &&& if operator.kind is LogicalAnd {
                is_bool_value(arms@[0].value, false, e.span) && lowers(
                    *right,
                    arms@[1].value,
                    first + temporaries(*left),
                )
            } else {
                lowers(*right, arms@[0].value, first + temporaries(*left)) && is_bool_value(
                    arms@[1].value,
                    true,
                    e.span,
                )
            }
            &&& is_bool_type(out.ty)
            &&& out.span == e.span
        } else if is_bool_equality(operator.kind, *left) {
            lowers_bool_equality(e, out, first)
        } else {
            out.kind matches ExpressionKind::PrimitiveBinary { operator: o, left: l, right: r }
                && o == primitive_of(operator.kind) && lowers(*left, *l, first) && lowers(
                *right,
                *r,
                first + temporaries(*left),
            ) && same_shell(out, e)
        },
    }
}

/// Lowering an operator application keeps its operation: numeric negation becomes the negation
/// primitive and bitwise complement the complement primitive, and a binary operator other than
/// the logical ones, symbol access, stores and boolean equality becomes the primitive that
/// computes what the operator is written as (`a < b` a less-than, `a > b` a greater-than).
pub proof fn lemma_lowered_operation_kept(e: CheckedExpression, out: Expression, first: nat)
    requires
        lowers(e, out, first),
    ensures
        match e.kind {
            CheckedKind::Unary { operator, .. } => {
                &&& operator.kind is Negate ==> (out.kind matches ExpressionKind::PrimitiveUnary {
                    operator: o,
                    ..
                } && o is Negate)
                &&& operator.kind is BitwiseNot ==> (
                out.kind matches ExpressionKind::PrimitiveUnary { operator: o, .. }
                    && o is BitwiseNot)
            },
            CheckedKind::Binary { operator, left, .. } => is_primitive_operator(operator.kind)
                && !is_bool_equality(operator.kind, *left) ==> (
            out.kind matches ExpressionKind::PrimitiveBinary { operator: o, .. } && primitive_symbol(
                o,
            ) == operator_symbol(operator.kind)),
            _ => true,
        },
{
    match e.kind {
        CheckedKind::Binary { operator, left, .. } => {
            if is_primitive_operator(operator.kind) {
                lemma_lowering_keeps_operation(operator.kind);
            }
        },
        _ => {},
    }
}

/// Where an expression stands once its parentheses are taken off.
pub open spec fn unparenthesized_span(e: CheckedExpression) -> Span
    decreases e,
{
    match e.kind {
        CheckedKind::Parenthesized(inner) => unparenthesized_span(*inner),
        _ => e.span,
    }
}

/// Lowering keeps positions: the lowered form of an expression covers the same span of the
/// source as the expression does without its parentheses, so diagnostics on the lowered program
/// point where the source was written.
pub proof fn lemma_lowering_keeps_position(e: CheckedExpression, out: Expression, first: nat)
    requires
        lowers(e, out, first),
    ensures
        out.span == unparenthesized_span(e),
    decreases e,
{
    match e.kind {
        CheckedKind::Parenthesized(inner) => {
            lemma_lowering_keeps_position(*inner, out, first);
        },
        CheckedKind::Binary { operator, left, .. } => {
            if !(operator.kind is LogicalAnd || operator.kind is LogicalOr) && is_bool_equality(
                operator.kind,
                *left,
            ) {
                assert(lowers_bool_equality(e, out, first));
            }
        },
        _ => {},
    }
}

/// `out` compares the two booleans of `e`: it binds the left side to temporary `first` and the
/// right side to temporary `first + 1`, then analyses both; the right side is lowered before the
/// left.
pub open spec fn lowers_bool_equality(e: CheckedExpression, out: Expression, first: nat) -> bool
    decreases e, 0nat,
{
    match e.kind {
        CheckedKind::Binary { operator, left, right } => {
            let equal = operator.kind is Equal;
            let span = e.span;
            let left_id = ValueId::Temporary(first as u32);
            let right_id = ValueId::Temporary((first + 1) as u32);
            &&& out.kind matches ExpressionKind::Let { binding: left_binding, body: inner }
            &&& left_binding.pattern matches Pattern::Binding { id: l, ty: lt }
            &&& l == left_id
            &&& lt.deep_equal(left_binding.value.ty)
            &&& left_binding.span == span
            &&& lowers(*left, left_binding.value, first + 2 + temporaries(*right))
            &&& is_bool_type(out.ty)
            &&& out.span == span
            &&& inner.kind matches ExpressionKind::Let { binding: right_binding, body: comparison }
            &&& right_binding.pattern matches Pattern::Binding { id: r, ty: rt }
            &&& r == right_id
            &&& rt.deep_equal(right_binding.value.ty)
            &&& right_binding.span == span
            &&& lowers(*right, right_binding.value, first + 2)
            &&& is_bool_type(inner.ty)
            &&& inner.span == span
            &&& comparison.kind matches ExpressionKind::Case { scrutinee, arms }
            &&& scrutinee.kind == ExpressionKind::Reference(left_id)
            &&& is_bool_type(scrutinee.ty)
            &&& scrutinee.span == span
            &&& arms@.len() == 2
            &&& is_wildcard_arm(arms@[0], 0, span)
            &&& is_wildcard_arm(arms@[1], 1, span)
            &&& is_bool_case_reference(arms@[0].value, right_id, equal, !equal, span)
            &&& is_bool_case_reference(arms@[1].value, right_id, !equal, equal, span)
            &&& is_bool_type(comparison.ty)
            &&& comparison.span == span
        },
        _ => false,
    }
}

/// Each `outs[i]` is `elements[i]` lowered after the elements before it.
pub open spec fn lowers_list(
    elements: Seq<CheckedExpression>,
    outs: Seq<Expression>,
    from: nat,
    first: nat,
) -> bool
    decreases elements, elements.len() - from,
{
    from >= elements.len() || (lowers(
        elements[from as int],
        outs[from as int],
        first + list_temporaries(elements, from),
    ) && lowers_list(elements, outs, from + 1, first))
}

/// `binding` is the body item lowered: a binding keeps its pattern, an expression is bound to a
/// wildcard of its type.
pub open spec fn lowers_item(item: CheckedItem, binding: Binding, first: nat) -> bool
    decreases item, 0nat,
{
    match item {
        CheckedItem::Binding(source) => lowers_pattern(source.pattern, binding.pattern) && lowers(
            source.value,
            binding.value,
            first,
        ) && binding.span == source.span,
        CheckedItem::Expression(value) => {
            &&& binding.pattern matches Pattern::Wildcard { ty, span }
            &&& ty.deep_equal(value.ty)
            &&& span == value.span
            &&& lowers(value, binding.value, first)
            &&& binding.span == value.span
        },
    }
}

/// `out` is the items `block.items[from..]` and the result lowered to nested `let`s; the result
/// is lowered first, then the items from the last to the first.
pub open spec fn lowers_block(block: ExpressionBlock, from: nat, out: Expression, first: nat) -> bool
    decreases block, block.items@.len() - from,
{
    if from >= block.items@.len() {
        lowers(*block.result, out, first)
    } else {
        &&& out.kind matches ExpressionKind::Let { binding, body }
        &&& lowers_block(block, from + 1, *body, first)
        &&& lowers_item(
            block.items@[from as int],
            *binding,
            first + block_temporaries(block, from + 1),
        )
        &&& out.ty.deep_equal(body.ty)
        &&& out.span == joined(binding.span, body.span)
    }
}

/// The same as `lowers_block`, for the body of a lambda.
pub open spec fn lowers_lambda_body(body: LambdaBody, from: nat, out: Expression, first: nat) -> bool
    decreases body, body.items@.len() - from,
{
    if from >= body.items@.len() {
        lowers(*body.result, out, first)
    } else {
        &&& out.kind matches ExpressionKind::Let { binding, body: inner }
        &&& lowers_lambda_body(body, from + 1, *inner, first)
        &&& lowers_item(
            body.items@[from as int],
            *binding,
            first + lambda_body_temporaries(body, from + 1),
        )
        &&& out.ty.deep_equal(inner.ty)
        &&& out.span == joined(binding.span, inner.span)
    }
}

/// Each `outs[i]` is `arms[i]` lowered after the arms before it.
pub open spec fn lowers_arms(arms: Seq<CheckedArm>, outs: Seq<CaseArm>, from: nat, first: nat) -> bool
    decreases arms, arms.len() - from,
{
    if from >= arms.len() {
        true
    } else {
        let arm = arms[from as int];
        let out = outs[from as int];
        &&& out.index == arm.index
        &&& lowers_pattern(arm.pattern, out.pattern)
        &&& out.span == arm.span
        &&& lowers_block(arm.body, 0, out.value, first + arms_temporaries(arms, from))
        &&& lowers_arms(arms, outs, from + 1, first)
    }
}

/// Arm `k` of a sum elimination, made after the arms before it: it selects member `k`, binds
/// the member's payload to a fresh temporary and calls continuation `k`, lowered after that
/// temporary was taken, with it.
pub open spec fn lowers_continuation_arm(
    continuations: Seq<CheckedExpression>,
    members: Seq<Type>,
    ty: Type,
    arm: CaseArm,
    k: nat,
    first: nat,
) -> bool
    decreases continuations, 0nat,
{
    let continuation = continuations[k as int];
    let payload = ValueId::Temporary((first + k + list_temporaries(continuations, k)) as u32);
    &&& k < continuations.len()
    &&& arm.index == k
    &&& arm.pattern matches Pattern::Binding { id, ty: bound }
    &&& id == payload
    &&& bound.deep_equal(members[k as int])
    &&& arm.span == continuation.span
    &&& arm.value.kind matches ExpressionKind::Call { callee, argument }
    &&& lowers(continuation, *callee, first + k + 1 + list_temporaries(continuations, k))
    &&& argument.kind == ExpressionKind::Reference(payload)
    &&& argument.ty.deep_equal(members[k as int])
    &&& argument.span == continuation.span
    &&& arm.value.ty.deep_equal(ty)
    &&& arm.value.span == continuation.span
}

/// Each `arms[k]`, for `from <= k < upto`, is arm `k` of eliminating a sum of `members` with
/// `continuations`.
pub open spec fn lowers_continuations(
    continuations: Seq<CheckedExpression>,
    members: Seq<Type>,
    ty: Type,
    arms: Seq<CaseArm>,
    from: nat,
    upto: nat,
    first: nat,
) -> bool
    decreases continuations, upto - from,
{
    if from >= upto || from >= continuations.len() {
        true
    } else {
        &&& lowers_continuation_arm(continuations, members, ty, arms[from as int], from, first)
        &&& lowers_continuations(continuations, members, ty, arms, from + 1, upto, first)
    }
}

/// `ty` is the product of the parameters' types.
pub open spec fn is_parameter_product(ty: Type, parameters: Seq<CheckedParameter>) -> bool {
    &&& ty matches Type::Product(members)
    &&& members@.len() == parameters.len()
    &&& forall|i: int|
        0 <= i < parameters.len() ==> (#[trigger] members@[i]).deep_equal(parameters[i].ty)
}

/// `pattern` binds `parameter`'s value at its type.
pub open spec fn binds_parameter(pattern: Pattern, parameter: CheckedParameter) -> bool {
    pattern matches Pattern::Binding { id, ty } && id == ValueId::Source(parameter.binding.id)
        && ty.deep_equal(parameter.ty)
}

/// `capture` in the core program.
pub open spec fn lowers_capture(capture: CheckedCapture, out: Capture) -> bool {
    &&& out.source == ValueId::Source(capture.source.id)
    &&& out.binding == ValueId::Source(capture.binding.id)
    &&& out.ty.deep_equal(capture.ty)
}

/// `out` is `lambda` lowered: a lambda of several parameters takes their product, bound to
/// temporary `first`, and its body begins by taking the product apart.
pub open spec fn lowers_lambda(lambda: CheckedLambda, out: Lambda, first: nat) -> bool
    decreases lambda, 0nat,
{
    let parameters = lambda.parameters@;
    let count = parameters.len();
    &&& out.id == lambda.id
    &&& out.self_binding == (match lambda.self_binding {
        Some(id) => Some(ValueId::Source(id)),
        None => None,
    })
    &&& out.captures@.len() == lambda.captures@.len()
    &&& forall|i: int|
        0 <= i < lambda.captures@.len() ==> lowers_capture(
            lambda.captures@[i],
            #[trigger] out.captures@[i],
        )
    &&& count == 0 ==> out.parameter.ty == Type::Unit && out.parameter.binding is None
        && out.parameter.span == lambda.body.span
    &&& count == 1 ==> out.parameter.ty.deep_equal(parameters[0].ty) && out.parameter.binding
        == Some(ValueId::Source(parameters[0].binding.id)) && out.parameter.span
        == parameters[0].span
    &&& count > 1 ==> is_parameter_product(out.parameter.ty, parameters) && out.parameter.binding
        == Some(ValueId::Temporary(first as u32)) && out.parameter.span == parameters[0].span
    &&& count <= 1 ==> lowers_lambda_body(lambda.body, 0, *out.body, first)
    &&& count > 1 ==> {
        &&& out.body.kind matches ExpressionKind::Let { binding, body }
        &&& binding.pattern matches Pattern::Product { elements, ty, span }
        &&& elements@.len() == count
        &&& forall|i: int| 0 <= i < count ==> binds_parameter(#[trigger] elements@[i], parameters[i])
        &&& is_parameter_product(ty, parameters)
        &&& span == lambda.body.span
        &&& binding.value.kind == ExpressionKind::Reference(ValueId::Temporary(first as u32))
        &&& is_parameter_product(binding.value.ty, parameters)
        &&& binding.value.span == lambda.body.span
        &&& binding.span == lambda.body.span
        &&& lowers_lambda_body(lambda.body, 0, *body, first + 1)
        &&& out.body.ty.deep_equal(body.ty)
        &&& out.body.span == lambda.body.span
    }
}

proof fn lemma_lowerable_list(elements: Seq<CheckedExpression>, from: nat)
    requires
        lowerable_list(elements, from),
    ensures
        forall|j: int| from <= j < elements.len() ==> lowerable(#[trigger] elements[j]),
    decreases elements.len() - from,
{
    if from < elements.len() {
        lemma_lowerable_list(elements, from + 1);
    }
}

proof fn lemma_lowerable_arms(arms: Seq<CheckedArm>, from: nat)
    requires
        lowerable_arms(arms, from),
    ensures
        forall|j: int| from <= j < arms.len() ==> lowerable_block(#[trigger] arms[j].body, 0),
    decreases arms.len() - from,
{
    if from < arms.len() {
        lemma_lowerable_arms(arms, from + 1);
    }
}

proof fn lemma_lowerable_block(block: ExpressionBlock, from: nat)
    requires
        lowerable_block(block, from),
    ensures
        lowerable(*block.result),
        forall|j: int| from <= j < block.items@.len() ==> lowerable_item(#[trigger] block.items@[j]),
    decreases block.items@.len() - from,
{
    if from < block.items@.len() {
        lemma_lowerable_block(block, from + 1);
    }
}

proof fn lemma_lowerable_lambda_body(body: LambdaBody, from: nat)
    requires
        lowerable_lambda_body(body, from),
    ensures
        lowerable(*body.result),
        forall|j: int| from <= j < body.items@.len() ==> lowerable_item(#[trigger] body.items@[j]),
    decreases body.items@.len() - from,
{
    if from < body.items@.len() {
        lemma_lowerable_lambda_body(body, from + 1);
    }
}

proof fn lemma_list_temporaries_monotone(elements: Seq<CheckedExpression>, i: nat, j: nat)
    requires
        i <= j <= elements.len(),
    ensures
        list_temporaries(elements, i) <= list_temporaries(elements, j),
    decreases j - i,
{
    if i < j {
        lemma_list_temporaries_monotone(elements, i, (j - 1) as nat);
    }
}

proof fn lemma_arms_temporaries_monotone(arms: Seq<CheckedArm>, i: nat, j: nat)
    requires
        i <= j <= arms.len(),
    ensures
        arms_temporaries(arms, i) <= arms_temporaries(arms, j),
    decreases j - i,
{
    if i < j {
        lemma_arms_temporaries_monotone(arms, i, (j - 1) as nat);
    }
}

proof fn lemma_block_temporaries_monotone(block: ExpressionBlock, i: nat, j: nat)
    requires
        i <= j,
    ensures
        block_temporaries(block, j) <= block_temporaries(block, i),
    decreases j - i,
{
    if i < j {
        lemma_block_temporaries_monotone(block, i + 1, j);
    }
}

proof fn lemma_lambda_body_temporaries_monotone(body: LambdaBody, i: nat, j: nat)
    requires
        i <= j,
    ensures
        lambda_body_temporaries(body, j) <= lambda_body_temporaries(body, i),
    decreases j - i,
{
    if i < j {
        lemma_lambda_body_temporaries_monotone(body, i + 1, j);
    }
}

proof fn lemma_lowers_list(elements: Seq<CheckedExpression>, outs: Seq<Expression>, from: nat, first: nat)
    requires
        forall|j: int|
            from <= j < elements.len() ==> lowers(
                #[trigger] elements[j],
                outs[j],
                first + list_temporaries(elements, j as nat),
            ),
    ensures
        lowers_list(elements, outs, from, first),
    decreases elements.len() - from,
{
    if from < elements.len() {
        lemma_lowers_list(elements, outs, from + 1, first);
    }
}

proof fn lemma_lowers_arms(arms: Seq<CheckedArm>, outs: Seq<CaseArm>, from: nat, first: nat)
    requires
        forall|j: int|
            from <= j < arms.len() ==> {
                &&& (#[trigger] outs[j]).index == arms[j].index
                &&& lowers_pattern(arms[j].pattern, outs[j].pattern)
                &&& outs[j].span == arms[j].span
                &&& lowers_block(arms[j].body, 0, outs[j].value, first + arms_temporaries(arms, j as nat))
            },
    ensures
        lowers_arms(arms, outs, from, first),
    decreases arms.len() - from,
{
    if from < arms.len() {
        lemma_lowers_arms(arms, outs, from + 1, first);
    }
}

proof fn lemma_lowers_continuations(
    continuations: Seq<CheckedExpression>,
    members: Seq<Type>,
    ty: Type,
    arms: Seq<CaseArm>,
    from: nat,
    upto: nat,
    first: nat,
)
    requires
        forall|j: int|
            from <= j < upto ==> lowers_continuation_arm(
                continuations,
                members,
                ty,
                #[trigger] arms[j],
                j as nat,
                first,
            ),
    ensures
        lowers_continuations(continuations, members, ty, arms, from, upto, first),
    decreases upto - from,
{
    if from < upto && from < continuations.len() {
        lemma_lowers_continuations(continuations, members, ty, arms, from + 1, upto, first);
    }
}

proof fn lemma_lowers_patterns(patterns: Seq<CheckedPattern>, outs: Seq<Pattern>, from: nat)
    requires
        forall|j: int| from <= j < patterns.len() ==> lowers_pattern(#[trigger] patterns[j], outs[j]),
    ensures
        lowers_patterns(patterns, outs, from),
    decreases patterns.len() - from,
{
    if from < patterns.len() {
        lemma_lowers_patterns(patterns, outs, from + 1);
    }
}

proof fn lemma_lowers_top_level_patterns(patterns: Seq<CheckedPattern>, outs: Seq<TopLevelPattern>, from: nat)
    requires
        forall|j: int|
            from <= j < patterns.len() ==> lowers_top_level_pattern(#[trigger] patterns[j], outs[j]),
    ensures
        lowers_top_level_patterns(patterns, outs, from),
    decreases patterns.len() - from,
{
    if from < patterns.len() {
        lemma_lowers_top_level_patterns(patterns, outs, from + 1);
    }
}

/// The boolean `value` at `span`.
fn bool_value(value: bool, span: Span) -> (e: Expression)
    ensures
        is_bool_value(e, value, span),
{
    Expression {
        kind: ExpressionKind::SumInjection {
            index: if value {
                1
            } else {
                0
            },
            value: Box::new(Expression { kind: ExpressionKind::Unit, ty: Type::Unit, span }),
        },
        ty: bool_type(),
        span,
    }
}

/// An arm that matches anything, selects variant `index` and gives `value`.
fn wildcard_arm(index: usize, value: Expression, span: Span) -> (arm: CaseArm)
    ensures
        is_wildcard_arm(arm, index, span),
        arm.value == value,
{
    CaseArm { index, pattern: Pattern::Wildcard { ty: Type::Unit, span }, value, span }
}

/// A case analysis of `scrutinee` with `arms`.
fn case(scrutinee: Expression, arms: Vec<CaseArm>, ty: Type, span: Span) -> (e: Expression)
    ensures
        e.kind == (ExpressionKind::Case { scrutinee: Box::new(scrutinee), arms }),
        e.ty == ty,
        e.span == span,
{
    Expression { kind: ExpressionKind::Case { scrutinee: Box::new(scrutinee), arms }, ty, span }
}

/// A reference to `id`.
fn reference(id: ValueId, ty: Type, span: Span) -> (e: Expression)
    ensures
        e.kind == ExpressionKind::Reference(id),
        e.ty == ty,
        e.span == span,
{
    Expression { kind: ExpressionKind::Reference(id), ty, span }
}

/// A case analysis of the boolean `id` that gives `zero` when it is false and `one` when true.
fn bool_case_reference(id: ValueId, zero: bool, one: bool, span: Span) -> (e: Expression)
    ensures
        is_bool_case_reference(e, id, zero, one, span),
{
    let mut arms: Vec<CaseArm> = Vec::new();
    arms.push(wildcard_arm(0, bool_value(zero, span), span));
    arms.push(wildcard_arm(1, bool_value(one, span), span));
    case(reference(id, bool_type(), span), arms, bool_type(), span)
}

/// `body`, with `value` first bound to temporary `id`.
fn temporary_let(id: ValueId, value: Expression, body: Expression, span: Span) -> (e: Expression)
    ensures
        e.kind matches ExpressionKind::Let { binding, body: inner } && binding.pattern matches Pattern::Binding {
            id: bound,
            ty,
        } && bound == id && ty.deep_equal(value.ty) && binding.value == value && binding.span
            == span && *inner == body,
        is_bool_type(e.ty),
        e.span == span,
{
    let ty = value.ty.clone();
    Expression {
        kind: ExpressionKind::Let {
            binding: Box::new(Binding { pattern: Pattern::Binding { id, ty }, value, span }),
            body: Box::new(body),
        },
        ty: bool_type(),
        span,
    }
}

fn lower_patterns(patterns: &Vec<CheckedPattern>) -> (outs: Vec<Pattern>)
    ensures
        outs@.len() == patterns@.len(),
        lowers_patterns(patterns@, outs@, 0),
    decreases patterns,
{
    let mut outs: Vec<Pattern> = Vec::new();
    let mut k: usize = 0;
    while k < patterns.len()
        invariant
            k <= patterns@.len(),
            outs@.len() == k,
            forall|j: int| 0 <= j < k ==> lowers_pattern(#[trigger] patterns@[j], outs@[j]),
        decreases patterns@.len() - k,
    {
        outs.push(lower_pattern(&patterns[k]));
        k = k + 1;
    }
    proof {
        lemma_lowers_patterns(patterns@, outs@, 0);
    }
    outs
}

/// `pattern` in the core program.
pub fn lower_pattern(pattern: &CheckedPattern) -> (out: Pattern)
    ensures
        lowers_pattern(*pattern, out),
    decreases pattern,
{
    match pattern {
        CheckedPattern::Binding { binding, ty } => Pattern::Binding {
            id: ValueId::Source(binding.id),
            ty: ty.clone(),
        },
        CheckedPattern::Wildcard { ty, span } => Pattern::Wildcard { ty: ty.clone(), span: *span },
        CheckedPattern::Product { elements, ty, span } => Pattern::Product {
            elements: lower_patterns(elements),
            ty: ty.clone(),
            span: *span,
        },
    }
}

fn lower_top_level_patterns(patterns: &Vec<CheckedPattern>) -> (outs: Vec<TopLevelPattern>)
    ensures
        outs@.len() == patterns@.len(),
        lowers_top_level_patterns(patterns@, outs@, 0),
    decreases patterns,
{
    let mut outs: Vec<TopLevelPattern> = Vec::new();
    let mut k: usize = 0;
    while k < patterns.len()
        invariant
            k <= patterns@.len(),
            outs@.len() == k,
            forall|j: int| 0 <= j < k ==> lowers_top_level_pattern(#[trigger] patterns@[j], outs@[j]),
        decreases patterns@.len() - k,
    {
        outs.push(lower_top_level_pattern(&patterns[k]));
        k = k + 1;
    }
    proof {
        lemma_lowers_top_level_patterns(patterns@, outs@, 0);
    }
    outs
}

/// The top-level `pattern` in the core program.
pub fn lower_top_level_pattern(pattern: &CheckedPattern) -> (out: TopLevelPattern)
    ensures
        lowers_top_level_pattern(*pattern, out),
    decreases pattern,
{
    match pattern {
        CheckedPattern::Binding { binding, ty } => TopLevelPattern::Binding {
            id: ValueId::Source(binding.id),
            name: binding.name.text.clone(),
            ty: ty.clone(),
        },
        CheckedPattern::Wildcard { ty, span } => TopLevelPattern::Wildcard {
            ty: ty.clone(),
            span: *span,
        },
        CheckedPattern::Product { elements, ty, span } => TopLevelPattern::Product {
            elements: lower_top_level_patterns(elements),
            ty: ty.clone(),
            span: *span,
        },
    }
}

/// The positions, among the first `n` items, of the top-level bindings.
pub open spec fn binding_positions(items: Seq<Node<TopItem>>, n: int) -> Seq<int>
    decreases n,
{
    if n <= 0 {
        seq![]
    } else if items[n - 1].kind is Binding {
        binding_positions(items, n - 1).push(n - 1)
    } else {
        binding_positions(items, n - 1)
    }
}

/// The external operation `item` takes a parameter that is not unit.
pub open spec fn takes_parameter(item: TopItem) -> bool {
    item matches TopItem::ExternalOperation { parameter, .. } && !(parameter is Unit)
}

/// How many temporaries the external operations among the first `n` items take: one for each
/// that takes a parameter.
pub open spec fn external_temporaries(items: Seq<Node<TopItem>>, n: int) -> nat
    decreases n,
{
    if n <= 0 {
        0
    } else {
        external_temporaries(items, n - 1) + if takes_parameter(items[n - 1].kind) {
            1nat
        } else {
            0nat
        }
    }
}

/// How many temporaries the top-level bindings among the first `n` items take.
pub open spec fn binding_temporaries(items: Seq<Node<TopItem>>, n: int) -> nat
    decreases n,
{
    if n <= 0 {
        0
    } else {
        binding_temporaries(items, n - 1) + match items[n - 1].kind {
            TopItem::Binding(binding) => temporaries(binding.value),
            _ => 0,
        }
    }
}

/// How many temporaries lowering a program of `items` takes.
pub open spec fn program_temporaries(items: Seq<Node<TopItem>>) -> nat {
    external_temporaries(items, items.len() as int) + binding_temporaries(items, items.len() as int)
}

/// The value of a top-level binding uses only operators that lowering takes.
pub open spec fn lowerable_top_item(item: TopItem) -> bool {
    match item {
        TopItem::Binding(binding) => lowerable(binding.value),
        _ => true,
    }
}

/// Every top-level binding of `items` can be lowered.
pub open spec fn lowerable_program(items: Seq<Node<TopItem>>) -> bool {
    forall|i: int| 0 <= i < items.len() ==> lowerable_top_item(#[trigger] items[i].kind)
}

/// `ty` is the function type from `parameter` to `result`.
pub open spec fn is_function_of(ty: Type, parameter: Type, result: Type) -> bool {
    ty matches Type::Function { parameter: p, result: r } && p.deep_equal(parameter) && r.deep_equal(
        result,
    )
}

/// `out` binds the external operation `id` to a lambda that calls it: a lambda of a parameter
/// that is not unit binds it to temporary `first` and passes it on, otherwise it passes unit.
pub open spec fn lowers_external_parts(
    id: ExternalOperationId,
    binding: ValueBinding,
    lambda_id: LambdaId,
    parameter: Type,
    result: Type,
    span: Span,
    out: TopLevelBinding,
    first: nat,
) -> bool {
    let has_parameter = !(parameter is Unit);
    &&& out.pattern matches TopLevelPattern::Binding { id: bound, name, ty }
    &&& bound == ValueId::Source(binding.id)
    &&& name == binding.name.text
    &&& is_function_of(ty, parameter, result)
    &&& out.value.kind matches ExpressionKind::Lambda(lambda)
    &&& lambda.id == lambda_id
    &&& lambda.self_binding is None
    &&& lambda.captures@.len() == 0
    &&& lambda.parameter.binding == (if has_parameter {
        Some(ValueId::Temporary(first as u32))
    } else {
        None
    })
    &&& lambda.parameter.ty.deep_equal(parameter)
    &&& lambda.parameter.span == span
    &&& lambda.body.kind matches ExpressionKind::ExternalCall { id: called, argument }
    &&& called == id
    &&& if has_parameter {
        argument.kind == ExpressionKind::Reference(ValueId::Temporary(first as u32))
            && argument.ty.deep_equal(parameter) && argument.span == span
    } else {
        is_unit_value(*argument, span)
    }
    &&& lambda.body.ty.deep_equal(result)
    &&& lambda.body.span == span
    &&& is_function_of(out.value.ty, parameter, result)
    &&& out.value.span == span
    &&& out.span == span
}

/// `out` is the external operation `item` bound to a lambda that calls it.
pub open spec fn lowers_external(item: Node<TopItem>, out: TopLevelBinding, first: nat) -> bool {
    match item.kind {
        TopItem::ExternalOperation { id, binding, lambda_id, parameter, result, .. } =>
            lowers_external_parts(id, binding, lambda_id, parameter, result, item.span, out, first),
        _ => false,
    }
}

/// `out` is the top-level binding `item` lowered with temporaries numbered from `first`.
pub open spec fn lowers_top_level_binding(item: TopItem, out: TopLevelBinding, first: nat) -> bool {
    match item {
        TopItem::Binding(binding) => lowers_top_level_pattern(binding.pattern, out.pattern) && lowers(
            binding.value,
            out.value,
            first,
        ) && out.span == binding.span,
        _ => false,
    }
}

/// `out` is `program` lowered: its interface, then one binding for each external operation in
/// order, then its top-level bindings in order, temporaries numbered from zero in that order.
pub open spec fn lowers_program(program: CheckedProgram, out: Program) -> bool {
    let items = program.items@;
    let externals = external_positions(items, items.len() as int);
    let bindings = binding_positions(items, items.len() as int);
    &&& is_interface_of(out.interface, items)
    &&& out.span == program.span
    &&& out.bindings@.len() == externals.len() + bindings.len()
    &&& forall|i: int|
        0 <= i < externals.len() ==> lowers_external(
            items[#[trigger] externals[i]],
            out.bindings@[i],
            external_temporaries(items, externals[i]),
        )
    &&& forall|i: int|
        0 <= i < bindings.len() ==> lowers_top_level_binding(
            items[#[trigger] bindings[i]].kind,
            out.bindings@[externals.len() + i],
            external_temporaries(items, items.len() as int) + binding_temporaries(items, bindings[i]),
        )
}

proof fn lemma_external_temporaries_monotone(items: Seq<Node<TopItem>>, i: int, j: int)
    requires
        i <= j,
    ensures
        external_temporaries(items, i) <= external_temporaries(items, j),
    decreases j - i,
{
    if i < j {
        lemma_external_temporaries_monotone(items, i, j - 1);
    }
}

proof fn lemma_binding_temporaries_monotone(items: Seq<Node<TopItem>>, i: int, j: int)
    requires
        i <= j,
    ensures
        binding_temporaries(items, i) <= binding_temporaries(items, j),
    decreases j - i,
{
    if i < j {
        lemma_binding_temporaries_monotone(items, i, j - 1);
    }
}

/// Whether `ty` is `Bool`.
fn is_bool(ty: &Type) -> (answer: bool)
    ensures
        answer == is_bool_type(*ty),
{
    match ty {
        Type::Sum(members) => members.len() == 2 && (match &members[0] {
            Type::Unit => true,
            _ => false,
        }) && (match &members[1] {
            Type::Unit => true,
            _ => false,
        }),
        _ => false,
    }
}

/// The product of the parameters' types.
fn parameter_product(parameters: &Vec<CheckedParameter>) -> (ty: Type)
    ensures
        is_parameter_product(ty, parameters@),
{
    let mut members: Vec<Type> = Vec::new();
    let mut k: usize = 0;
    while k < parameters.len()
        invariant
            k <= parameters@.len(),
            members@.len() == k,
            forall|i: int| 0 <= i < k ==> (#[trigger] members@[i]).deep_equal(parameters@[i].ty),
        decreases parameters@.len() - k,
    {
        members.push(parameters[k].ty.clone());
        k = k + 1;
    }
    Type::Product(members)
}

/// A pattern that binds each parameter's value.
fn parameter_patterns(parameters: &Vec<CheckedParameter>) -> (patterns: Vec<Pattern>)
    ensures
        patterns@.len() == parameters@.len(),
        forall|i: int|
            0 <= i < parameters@.len() ==> binds_parameter(#[trigger] patterns@[i], parameters@[i]),
{
    let mut patterns: Vec<Pattern> = Vec::new();
    let mut k: usize = 0;
    while k < parameters.len()
        invariant
            k <= parameters@.len(),
            patterns@.len() == k,
            forall|i: int| 0 <= i < k ==> binds_parameter(#[trigger] patterns@[i], parameters@[i]),
        decreases parameters@.len() - k,
    {
        let parameter = &parameters[k];
        patterns.push(Pattern::Binding { id: ValueId::Source(parameter.binding.id), ty: parameter.ty.clone() });
        k = k + 1;
    }
    patterns
}

/// The captures of a lambda in the core program.
fn lower_captures(captures: &Vec<CheckedCapture>) -> (outs: Vec<Capture>)
    ensures
        outs@.len() == captures@.len(),
        forall|i: int| 0 <= i < captures@.len() ==> lowers_capture(captures@[i], #[trigger] outs@[i]),
{
    let mut outs: Vec<Capture> = Vec::new();
    let mut k: usize = 0;
    while k < captures.len()
        invariant
            k <= captures@.len(),
            outs@.len() == k,
            forall|i: int| 0 <= i < k ==> lowers_capture(captures@[i], #[trigger] outs@[i]),
        decreases captures@.len() - k,
    {
        let capture = &captures[k];
        outs.push(
            Capture {
                source: ValueId::Source(capture.source.id),
                binding: ValueId::Source(capture.binding.id),
                ty: capture.ty.clone(),
            },
        );
        k = k + 1;
    }
    outs
}


/// Temporary `n` of the core program.
pub open spec fn temporary_id(n: nat) -> ValueId {
    ValueId::Temporary(n as u32)
}

/// `e` reads `id` at type `ty` and at `span`.
pub open spec fn reads(e: Expression, id: ValueId, ty: Type, span: Span) -> bool {
    e.kind == ExpressionKind::Reference(id) && e.ty.deep_equal(ty) && e.span == span
}

/// `e` is the unit value at `span`.
pub open spec fn unit_at(e: Expression, span: Span) -> bool {
    e.kind is Unit && e.ty == Type::Unit && e.span == span
}

/// `ty` is the product of the two types.
pub open spec fn is_pair_type(ty: Type, first: Type, second: Type) -> bool {
    ty matches Type::Product(members) && members@.len() == 2 && members@[0].deep_equal(first)
        && members@[1].deep_equal(second)
}

/// What `e` binds, if it is a `let`; `e` itself otherwise.
pub open spec fn let_value(e: Expression) -> Expression {
    match e.kind {
        ExpressionKind::Let { binding, .. } => binding.value,
        _ => e,
    }
}

/// What `e` gives after its binding, if it is a `let`; `e` itself otherwise.
pub open spec fn let_body(e: Expression) -> Expression {
    match e.kind {
        ExpressionKind::Let { body, .. } => *body,
        _ => e,
    }
}

/// `e` is a `let` at `span` whose pattern binds `id` at type `ty`, with the type of its body.
pub open spec fn binds_temporary(e: Expression, id: ValueId, ty: Type, span: Span) -> bool {
    &&& e.kind matches ExpressionKind::Let { binding, body }
    &&& binding.pattern matches Pattern::Binding { id: bound, ty: t }
    &&& bound == id
    &&& t.deep_equal(ty)
    &&& binding.span == span
    &&& e.ty.deep_equal(body.ty)
    &&& e.span == span
}

/// `e` is a `let` at `span` whose pattern drops a unit value, with the type of its body.
pub open spec fn drops_unit(e: Expression, span: Span) -> bool {
    &&& e.kind matches ExpressionKind::Let { binding, body }
    &&& binding.pattern == (Pattern::Wildcard { ty: Type::Unit, span })
    &&& binding.span == span
    &&& e.ty.deep_equal(body.ty)
    &&& e.span == span
}

/// `e` is a capability of a packed builder: the function with identity `lambda` that captures
/// the builder `builder` as temporary `capture`, takes a `parameter` type value as temporary
/// `parameter` (none when it is unit), and applies `operation` to the builder and that value,
/// giving a `result` type value.
pub open spec fn is_capability(
    e: Expression,
    builder: ValueId,
    capture: nat,
    parameter: nat,
    parameter_type: Type,
    result_type: Type,
    operation: PackedBuilderOperation,
    element: Type,
    lambda: nat,
    span: Span,
) -> bool {
    let unit = parameter_type is Unit;
    &&& e.kind matches ExpressionKind::Lambda(function)
    &&& function.id == LambdaId(lambda as u32)
    &&& function.self_binding is None
    &&& function.captures@.len() == 1
    &&& function.captures@[0].source == builder
    &&& function.captures@[0].binding == temporary_id(capture)
    &&& function.captures@[0].ty == Type::Address
    &&& function.parameter.binding == (if unit { None } else { Some(temporary_id(parameter)) })
    &&& function.parameter.ty.deep_equal(parameter_type)
    &&& function.parameter.span == span
    &&& function.body.kind matches ExpressionKind::PackedBuilder { operation: op, element: elem, argument }
    &&& op == operation
    &&& elem.deep_equal(element)
    &&& function.body.ty.deep_equal(result_type)
    &&& function.body.span == span
    &&& argument.kind matches ExpressionKind::Product(parts)
    &&& parts@.len() == 2
    &&& reads(parts@[0], temporary_id(capture), Type::Address, span)
    &&& (if unit {
        unit_at(parts@[1], span)
    } else {
        reads(parts@[1], temporary_id(parameter), parameter_type, span)
    })
    &&& is_pair_type(argument.ty, Type::Address, parameter_type)
    &&& argument.span == span
    &&& e.ty matches Type::Function { parameter: p, result: r }
    &&& p.deep_equal(parameter_type)
    &&& r.deep_equal(result_type)
    &&& e.span == span
}

/// `e` is the product of the three capabilities of the builder `builder` of `element` values,
/// with temporaries from `first` and function identities from `lambda`: `new` makes a packed
/// value of an element count, `get` reads the element at an index, and `put` writes an element
/// at an index.
pub open spec fn is_capabilities(
    e: Expression,
    builder: ValueId,
    element: Type,
    first: nat,
    lambda: nat,
    span: Span,
) -> bool {
    &&& e.kind matches ExpressionKind::Product(parts)
    &&& parts@.len() == 3
    &&& is_capability(parts@[0], builder, first, first + 1, element, Type::USize, PackedBuilderOperation::New, element, lambda, span)
    &&& is_capability(parts@[1], builder, first + 2, first + 3, Type::USize, element, PackedBuilderOperation::Get, element, lambda + 1, span)
    &&& parts@[2].kind matches ExpressionKind::Lambda(put)
    &&& put.parameter.ty matches Type::Product(members)
    &&& members@.len() == 2
    &&& members@[0] == Type::USize
    &&& members@[1].deep_equal(element)
    &&& is_capability(parts@[2], builder, first + 4, first + 5, put.parameter.ty, Type::Unit, PackedBuilderOperation::Put, element, lambda + 2, span)
    &&& e.ty matches Type::Product(types)
    &&& types@.len() == 3
    &&& types@[0].deep_equal(parts@[0].ty)
    &&& types@[1].deep_equal(parts@[1].ty)
    &&& types@[2].deep_equal(parts@[2].ty)
    &&& e.span == span
}

/// How many temporaries lowering a packed build makes: those of the source and the callback, one
/// each for the callback, the builder and the source, and two for each of the three
/// capabilities.
pub open spec fn packed_build_temporaries(source: Option<CheckedExpression>, callback: CheckedExpression) -> nat {
    match source {
        Some(source) => temporaries(source) + temporaries(callback) + 9,
        None => temporaries(callback) + 8,
    }
}

/// `out` builds a packed value of `element`s for `expression`: it binds the lowered source, if
/// any, and the lowered callback, starts a builder (editing the source, or empty), calls the
/// callback with the builder's capabilities, and finishes the builder into the packed value.
/// Temporaries are numbered from `first` and capability functions from `lambda`.
pub open spec fn lowers_packed_build(
    source: Option<CheckedExpression>,
    callback: CheckedExpression,
    element: Type,
    expression: CheckedExpression,
    out: Expression,
    first: nat,
    lambda: nat,
) -> bool {
    let span = expression.span;
    let source_count = match source {
        Some(s) => temporaries(s),
        None => 0,
    };
    let own = first + source_count + temporaries(callback);
    let callback_id = temporary_id(own);
    let builder_id = temporary_id(own + 1);
    let source_id = temporary_id(own + 2);
    let capabilities_first = own + if source is Some { 3nat } else { 2nat };
    let after_callback_value = if source is Some {
        let_body(out)
    } else {
        out
    };
    let source_out = let_value(out);
    let callback_out = let_value(after_callback_value);
    let after_builder = let_body(after_callback_value);
    let builder = let_value(after_builder);
    let after_callback = let_body(after_builder);
    let call = let_value(after_callback);
    let finish = let_body(after_callback);
    &&& match source {
        Some(s) => {
            &&& lowers(s, source_out, first)
            &&& binds_temporary(out, source_id, source_out.ty, span)
            &&& builder.kind matches ExpressionKind::PackedBuilder { operation, element: elem, argument }
            &&& operation == PackedBuilderOperation::Edit
            &&& elem.deep_equal(element)
            &&& reads(*argument, source_id, source_out.ty, source_out.span)
        },
        None => {
            &&& builder.kind matches ExpressionKind::PackedBuilder { operation, element: elem, argument }
            &&& operation == PackedBuilderOperation::Start
            &&& elem.deep_equal(element)
            &&& unit_at(*argument, span)
        },
    }
    &&& builder.ty == Type::Address
    &&& builder.span == span
    &&& lowers(callback, callback_out, first + source_count)
    &&& binds_temporary(after_callback_value, callback_id, callback_out.ty, span)
    &&& binds_temporary(after_builder, builder_id, Type::Address, span)
    &&& drops_unit(after_callback, span)
    &&& call.kind matches ExpressionKind::Call { callee, argument }
    &&& reads(*callee, callback_id, callback_out.ty, callback_out.span)
    &&& is_capabilities(*argument, builder_id, element, capabilities_first, lambda, span)
    &&& call.ty == Type::Unit
    &&& call.span == span
    &&& finish.kind matches ExpressionKind::PackedBuilder { operation, element: elem, argument: built }
    &&& operation == PackedBuilderOperation::Finish
    &&& elem.deep_equal(element)
    &&& reads(*built, builder_id, Type::Address, span)
    &&& finish.ty.deep_equal(expression.ty)
    &&& finish.span == span
}

/// Lowers a packed build of `element`s for `expression` from the optional `source` and the
/// `callback`, numbering its temporaries from `first_temporary` and its capability functions
/// from `first_lambda`.
pub fn packed_build(
    source: Option<&CheckedExpression>,
    callback: &CheckedExpression,
    element: &Type,
    expression: &CheckedExpression,
    first_temporary: u32,
    first_lambda: u32,
) -> (out: Expression)
    requires
        match source {
            Some(s) => lowerable(*s),
            None => true,
        },
        lowerable(*callback),
        first_temporary + packed_build_temporaries(
            match source {
                Some(s) => Some(*s),
                None => None,
            },
            *callback,
        ) <= u32::MAX,
        first_lambda + 3 <= u32::MAX,
    ensures
        lowers_packed_build(
            match source {
                Some(s) => Some(*s),
                None => None,
            },
            *callback,
            *element,
            *expression,
            out,
            first_temporary as nat,
            first_lambda as nat,
        ),
{
    let mut lowerer = Lowerer { next_temporary: first_temporary, next_lambda: first_lambda };
    lowerer.lower_packed_build(source, callback, element, expression)
}

/// Lowers checked expressions, numbering the temporaries it makes from `next_temporary` on.
struct Lowerer {
    next_temporary: u32,
    next_lambda: u32,
}

impl Lowerer {
    /// A fresh temporary.
    fn temporary(&mut self) -> (id: ValueId)
        requires
            old(self).next_temporary < u32::MAX,
        ensures
            id == ValueId::Temporary(old(self).next_temporary),
            final(self).next_lambda == old(self).next_lambda,
            final(self).next_temporary == old(self).next_temporary + 1,
    {
        let id = ValueId::Temporary(self.next_temporary);
        self.next_temporary = self.next_temporary + 1;
        id
    }

    /// A function of the builder `builder`, with identity `next_lambda`, that applies
    /// `operation` to the builder and its argument.
    fn capability(
        &mut self,
        builder: ValueId,
        parameter_type: &Type,
        result_type: &Type,
        operation: PackedBuilderOperation,
        element: &Type,
        span: Span,
    ) -> (e: Expression)
        requires
            old(self).next_temporary + 2 <= u32::MAX,
            old(self).next_lambda < u32::MAX,
        ensures
            final(self).next_temporary == old(self).next_temporary + 2,
            final(self).next_lambda == old(self).next_lambda + 1,
            is_capability(
                e,
                builder,
                old(self).next_temporary as nat,
                (old(self).next_temporary + 1) as nat,
                *parameter_type,
                *result_type,
                operation,
                *element,
                old(self).next_lambda as nat,
                span,
            ),
    {
        let capture = self.temporary();
        let parameter = self.temporary();
        let unit = is_unit(parameter_type);
        let parameter_value = if unit {
            Expression { kind: ExpressionKind::Unit, ty: Type::Unit, span }
        } else {
            reference(parameter, parameter_type.clone(), span)
        };
        let mut members: Vec<Type> = Vec::new();
        members.push(Type::Address);
        members.push(parameter_type.clone());
        let argument_type = Type::Product(members);
        let mut parts: Vec<Expression> = Vec::new();
        parts.push(reference(capture, Type::Address, span));
        parts.push(parameter_value);
        let argument = Expression { kind: ExpressionKind::Product(parts), ty: argument_type, span };
        let body = Expression {
            kind: ExpressionKind::PackedBuilder {
                operation,
                element: element.clone(),
                argument: Box::new(argument),
            },
            ty: result_type.clone(),
            span,
        };
        let function_type = Type::Function {
            parameter: Box::new(parameter_type.clone()),
            result: Box::new(result_type.clone()),
        };
        let id = LambdaId(self.next_lambda);
        self.next_lambda = self.next_lambda + 1;
        let mut captures: Vec<Capture> = Vec::new();
        captures.push(Capture { source: builder, binding: capture, ty: Type::Address });
        let binding = if unit {
            None
        } else {
            Some(parameter)
        };
        proof {
            lemma_deep_equal_reflexive(Type::Address);
        }
        Expression {
            kind: ExpressionKind::Lambda(
                Lambda {
                    id,
                    self_binding: None,
                    captures,
                    parameter: Parameter { binding, ty: parameter_type.clone(), span },
                    body: Box::new(body),
                },
            ),
            ty: function_type,
            span,
        }
    }

    /// The product of the three capabilities of the builder `builder`: make, read and write
    /// elements.
    fn capabilities(&mut self, builder: ValueId, element: &Type, span: Span) -> (e: Expression)
        requires
            old(self).next_temporary + 6 <= u32::MAX,
            old(self).next_lambda + 3 <= u32::MAX,
        ensures
            final(self).next_temporary == old(self).next_temporary + 6,
            final(self).next_lambda == old(self).next_lambda + 3,
            is_capabilities(
                e,
                builder,
                *element,
                old(self).next_temporary as nat,
                old(self).next_lambda as nat,
                span,
            ),
    {
        let new = self.capability(builder, element, &Type::USize, PackedBuilderOperation::New, element, span);
        let get = self.capability(builder, &Type::USize, element, PackedBuilderOperation::Get, element, span);
        let mut members: Vec<Type> = Vec::new();
        members.push(Type::USize);
        members.push(element.clone());
        let put_parameter = Type::Product(members);
        let put = self.capability(builder, &put_parameter, &Type::Unit, PackedBuilderOperation::Put, element, span);
        let ghost made = put;
        proof {
            match made.kind {
                ExpressionKind::Lambda(function) => {
                    let own = function.parameter.ty;
                    lemma_deep_equal_reflexive(own);
                    lemma_deep_equal_symmetric(own, put_parameter);
                    match function.body.kind {
                        ExpressionKind::PackedBuilder { argument, .. } => {
                            match argument.kind {
                                ExpressionKind::Product(parts) => {
                                    lemma_deep_equal_transitive(parts@[1].ty, put_parameter, own);
                                    match argument.ty {
                                        Type::Product(m) => {
                                            lemma_deep_equal_transitive(m@[1], put_parameter, own);
                                        },
                                        _ => {},
                                    }
                                },
                                _ => {},
                            }
                        },
                        _ => {},
                    }
                    match made.ty {
                        Type::Function { parameter: p, .. } => {
                            lemma_deep_equal_transitive(*p, put_parameter, own);
                        },
                        _ => {},
                    }
                    match own {
                        Type::Product(m) => {
                            lemma_deep_equal_symmetric(put_parameter, own);
                            assert(all_deep_equal(members@, m@, 0));
                            lemma_all_deep_equal_at(members@, m@, 0);
                            lemma_deep_equal_symmetric(members@[1], m@[1]);
                            lemma_deep_equal_transitive(m@[1], members@[1], *element);
                            assert(members@[0].deep_equal(m@[0]));
                            assert(m@[0] == Type::USize);
                        },
                        _ => {},
                    }
                },
                _ => {},
            }
        }
        let mut types: Vec<Type> = Vec::new();
        types.push(new.ty.clone());
        types.push(get.ty.clone());
        types.push(put.ty.clone());
        let mut parts: Vec<Expression> = Vec::new();
        parts.push(new);
        parts.push(get);
        parts.push(put);
        Expression { kind: ExpressionKind::Product(parts), ty: Type::Product(types), span }
    }

    /// `body`, with `value` bound to `pattern` first.
    fn let_expression(pattern: Pattern, value: Expression, body: Expression, span: Span) -> (e: Expression)
        ensures
            e.kind == (ExpressionKind::Let {
                binding: Box::new(Binding { pattern, value, span }),
                body: Box::new(body),
            }),
            e.ty.deep_equal(body.ty),
            e.span == span,
    {
        let ty = body.ty.clone();
        Expression {
            kind: ExpressionKind::Let {
                binding: Box::new(Binding { pattern, value, span }),
                body: Box::new(body),
            },
            ty,
            span,
        }
    }

    /// Builds a packed value of `element`s: lowers the source, if any, and the callback, starts
    /// a builder that edits the source or starts empty, calls the callback with the builder's
    /// capabilities, and finishes the builder into the value of `expression`.
    fn lower_packed_build(
        &mut self,
        source: Option<&CheckedExpression>,
        callback: &CheckedExpression,
        element: &Type,
        expression: &CheckedExpression,
    ) -> (out: Expression)
        requires
            match source {
                Some(s) => lowerable(*s),
                None => true,
            },
            lowerable(*callback),
            old(self).next_temporary + packed_build_temporaries(
                match source {
                    Some(s) => Some(*s),
                    None => None,
                },
                *callback,
            ) <= u32::MAX,
            old(self).next_lambda + 3 <= u32::MAX,
        ensures
            final(self).next_temporary == old(self).next_temporary + packed_build_temporaries(
                match source {
                    Some(s) => Some(*s),
                    None => None,
                },
                *callback,
            ),
            final(self).next_lambda == old(self).next_lambda + 3,
            lowers_packed_build(
                match source {
                    Some(s) => Some(*s),
                    None => None,
                },
                *callback,
                *element,
                *expression,
                out,
                old(self).next_temporary as nat,
                old(self).next_lambda as nat,
            ),
    {
        let span = expression.span;
        let source = match source {
            Some(source) => Some(self.lower_expression(source)),
            None => None,
        };
        let callback = self.lower_expression(callback);
        let callback_id = self.temporary();
        let builder_id = self.temporary();
        let source_id = match &source {
            Some(_) => Some(self.temporary()),
            None => None,
        };
        let start_argument = match (&source, source_id) {
            (Some(source), Some(id)) => reference(id, source.ty.clone(), source.span),
            _ => Expression { kind: ExpressionKind::Unit, ty: Type::Unit, span },
        };
        let builder = Expression {
            kind: ExpressionKind::PackedBuilder {
                operation: if source.is_some() {
                    PackedBuilderOperation::Edit
                } else {
                    PackedBuilderOperation::Start
                },
                element: element.clone(),
                argument: Box::new(start_argument),
            },
            ty: Type::Address,
            span,
        };
        let capabilities = self.capabilities(builder_id, element, span);
        let callback_call = Expression {
            kind: ExpressionKind::Call {
                callee: Box::new(reference(callback_id, callback.ty.clone(), callback.span)),
                argument: Box::new(capabilities),
            },
            ty: Type::Unit,
            span,
        };
        let finish = Expression {
            kind: ExpressionKind::PackedBuilder {
                operation: PackedBuilderOperation::Finish,
                element: element.clone(),
                argument: Box::new(reference(builder_id, Type::Address, span)),
            },
            ty: expression.ty.clone(),
            span,
        };
        proof {
            lemma_deep_equal_reflexive(Type::Address);
        }
        let after_callback = Self::let_expression(
            Pattern::Wildcard { ty: Type::Unit, span },
            callback_call,
            finish,
            span,
        );
        let after_builder = Self::let_expression(
            Pattern::Binding { id: builder_id, ty: Type::Address },
            builder,
            after_callback,
            span,
        );
        let callback_type = callback.ty.clone();
        let after_callback_value = Self::let_expression(
            Pattern::Binding { id: callback_id, ty: callback_type },
            callback,
            after_builder,
            span,
        );
        match (source, source_id) {
            (Some(source), Some(id)) => {
                let source_type = source.ty.clone();
                Self::let_expression(
                    Pattern::Binding { id, ty: source_type },
                    source,
                    after_callback_value,
                    span,
                )
            },
            _ => after_callback_value,
        }
    }

    #[verifier::rlimit(60)]
    #[verifier::spinoff_prover]
    fn lower_expression(&mut self, e: &CheckedExpression) -> (out: Expression)
        requires
            lowerable(*e),
            old(self).next_temporary + temporaries(*e) <= u32::MAX,
        ensures
            final(self).next_lambda == old(self).next_lambda,
            final(self).next_temporary == old(self).next_temporary + temporaries(*e),
            lowers(*e, out, old(self).next_temporary as nat),
        decreases e, 2nat,
    {
        let kind = match &e.kind {
            CheckedKind::Reference(reference) => {
                if reference.id.0 == FALSE_VALUE {
                    return bool_value(false, e.span);
                }
                if reference.id.0 == TRUE_VALUE {
                    return bool_value(true, e.span);
                }
                ExpressionKind::Reference(ValueId::Source(reference.id))
            },
            CheckedKind::Integer(value) => ExpressionKind::Integer(*value),
            CheckedKind::Float(bits) => ExpressionKind::Float(*bits),
            CheckedKind::Symbol(bytes) => ExpressionKind::Symbol(copy_bytes(bytes)),
            CheckedKind::StorageSize(ty) => ExpressionKind::StorageSize(ty.clone()),
            CheckedKind::Unit => ExpressionKind::Unit,
            CheckedKind::Product(elements) => ExpressionKind::Product(self.lower_list(elements)),
            CheckedKind::Parenthesized(inner) => {
                return self.lower_expression(inner);
            },
            CheckedKind::Lambda(lambda) => ExpressionKind::Lambda(self.lower_lambda(lambda)),
            CheckedKind::Call { callee, argument } => {
                let callee = self.lower_expression(callee);
                let argument = self.lower_expression(argument);
                ExpressionKind::Call { callee: Box::new(callee), argument: Box::new(argument) }
            },
            CheckedKind::SymbolLength { value } => ExpressionKind::SymbolLength {
                value: Box::new(self.lower_expression(value)),
            },
            CheckedKind::SymbolAt { argument } => ExpressionKind::SymbolAt {
                argument: Box::new(self.lower_expression(argument)),
            },
            CheckedKind::MemoryFunction { primitive } => ExpressionKind::MemoryFunction {
                primitive: *primitive,
            },
            CheckedKind::Memory { primitive, argument } => ExpressionKind::Memory {
                primitive: *primitive,
                argument: Box::new(self.lower_expression(argument)),
            },
            CheckedKind::NumericConversion { value } => ExpressionKind::NumericConversion {
                value: Box::new(self.lower_expression(value)),
            },
            CheckedKind::SumInjection { index, value } => ExpressionKind::SumInjection {
                index: *index,
                value: Box::new(self.lower_expression(value)),
            },
            CheckedKind::SumElimination { scrutinee, continuations } => {
                let arms = self.lower_continuations(continuations, &scrutinee.ty, &e.ty);
                let scrutinee = self.lower_expression(scrutinee);
                ExpressionKind::Case { scrutinee: Box::new(scrutinee), arms }
            },
            CheckedKind::If { .. } => {
                return self.lower_if(e);
            },
            CheckedKind::Case { scrutinee, arms } => {
                let scrutinee = self.lower_expression(scrutinee);
                let arms = self.lower_arms(arms);
                ExpressionKind::Case { scrutinee: Box::new(scrutinee), arms }
            },
            CheckedKind::Unary { operator, operand } => {
                if operator.kind == UnaryOperator::LogicalNot {
                    return self.lower_logical_not(e);
                }
                let primitive = if operator.kind == UnaryOperator::Negate {
                    UnaryPrimitive::Negate
                } else {
                    UnaryPrimitive::BitwiseNot
                };
                ExpressionKind::PrimitiveUnary {
                    operator: primitive,
                    operand: Box::new(self.lower_expression(operand)),
                }
            },
            CheckedKind::Binary { .. } => {
                return self.lower_binary(e);
            },
        };
        Expression { kind, ty: e.ty.clone(), span: e.span }
    }

    /// An `if`: a case analysis of the condition whose first arm is the `else` branch.
    fn lower_if(&mut self, e: &CheckedExpression) -> (out: Expression)
        requires
            e.kind is If,
            lowerable(*e),
            old(self).next_temporary + temporaries(*e) <= u32::MAX,
        ensures
            final(self).next_lambda == old(self).next_lambda,
            final(self).next_temporary == old(self).next_temporary + temporaries(*e),
            lowers(*e, out, old(self).next_temporary as nat),
        decreases e, 0nat,
    {
        match &e.kind {
            CheckedKind::If { condition, then_branch, else_branch } => {
                let otherwise = self.lower_block(else_branch);
                let then = self.lower_block(then_branch);
                let condition = self.lower_expression(condition);
                let mut arms: Vec<CaseArm> = Vec::new();
                arms.push(wildcard_arm(0, otherwise, else_branch.span));
                arms.push(wildcard_arm(1, then, then_branch.span));
                case(condition, arms, e.ty.clone(), e.span)
            },
            _ => {
                proof {
                    assert(false);
                }
                bool_value(false, e.span)
            },
        }
    }

    /// `!operand`: a case analysis that swaps the two boolean values.
    fn lower_logical_not(&mut self, e: &CheckedExpression) -> (out: Expression)
        requires
            e.kind matches CheckedKind::Unary { operator, .. } && operator.kind is LogicalNot,
            lowerable(*e),
            old(self).next_temporary + temporaries(*e) <= u32::MAX,
        ensures
            final(self).next_lambda == old(self).next_lambda,
            final(self).next_temporary == old(self).next_temporary + temporaries(*e),
            lowers(*e, out, old(self).next_temporary as nat),
        decreases e, 0nat,
    {
        match &e.kind {
            CheckedKind::Unary { operand, .. } => {
                let scrutinee = self.lower_expression(operand);
                let false_value = bool_value(false, e.span);
                let true_value = bool_value(true, e.span);
                let mut arms: Vec<CaseArm> = Vec::new();
                arms.push(wildcard_arm(0, true_value, e.span));
                arms.push(wildcard_arm(1, false_value, e.span));
                case(scrutinee, arms, bool_type(), e.span)
            },
            _ => {
                proof {
                    assert(false);
                }
                bool_value(false, e.span)
            },
        }
    }

    /// A binary operation: `&&` and `||` become case analyses that evaluate the right side only
    /// when it decides, equality of booleans compares by cases, and the rest become primitives.
    #[verifier::spinoff_prover]
    fn lower_binary(&mut self, e: &CheckedExpression) -> (out: Expression)
        requires
            e.kind is Binary,
            lowerable(*e),
            old(self).next_temporary + temporaries(*e) <= u32::MAX,
        ensures
            final(self).next_lambda == old(self).next_lambda,
            final(self).next_temporary == old(self).next_temporary + temporaries(*e),
            lowers(*e, out, old(self).next_temporary as nat),
        decreases e, 1nat,
    {
        match &e.kind {
            CheckedKind::Binary { operator, left, right } => {
                if operator.kind == BinaryOperator::LogicalAnd || operator.kind
                    == BinaryOperator::LogicalOr {
                    return self.lower_short_circuit(e);
                }
                if (operator.kind == BinaryOperator::Equal || operator.kind
                    == BinaryOperator::NotEqual) && is_bool(&left.ty) {
                    return self.lower_bool_equality(e);
                }
                let left = self.lower_expression(left);
                let right = self.lower_expression(right);
                Expression {
                    kind: ExpressionKind::PrimitiveBinary {
                        operator: lower_binary_primitive(operator.kind),
                        left: Box::new(left),
                        right: Box::new(right),
                    },
                    ty: e.ty.clone(),
                    span: e.span,
                }
            },
            _ => {
                proof {
                    assert(false);
                }
                bool_value(false, e.span)
            },
        }
    }

    /// `&&` or `||`: a case analysis of the left side whose deciding arm is the right side.
    fn lower_short_circuit(&mut self, e: &CheckedExpression) -> (out: Expression)
        requires
            e.kind matches CheckedKind::Binary { operator, .. } && (operator.kind is LogicalAnd
                || operator.kind is LogicalOr),
            lowerable(*e),
            old(self).next_temporary + temporaries(*e) <= u32::MAX,
        ensures
            final(self).next_lambda == old(self).next_lambda,
            final(self).next_temporary == old(self).next_temporary + temporaries(*e),
            lowers(*e, out, old(self).next_temporary as nat),
        decreases e, 0nat,
    {
        let span = e.span;
        match &e.kind {
            CheckedKind::Binary { operator, left, right } => {
                let left = self.lower_expression(left);
                let right = self.lower_expression(right);
                let false_value = bool_value(false, span);
                let true_value = bool_value(true, span);
                let mut arms: Vec<CaseArm> = Vec::new();
                if operator.kind == BinaryOperator::LogicalAnd {
                    arms.push(wildcard_arm(0, false_value, span));
                    arms.push(wildcard_arm(1, right, span));
                } else {
                    arms.push(wildcard_arm(0, right, span));
                    arms.push(wildcard_arm(1, true_value, span));
                }
                case(left, arms, bool_type(), span)
            },
            _ => {
                proof {
                    assert(false);
                }
                bool_value(false, span)
            },
        }
    }

    /// `==` or `!=` on booleans: both sides are bound to fresh temporaries, the right side
    /// lowered first, and compared by a case analysis of each.
    #[verifier::spinoff_prover]
    fn lower_bool_equality(&mut self, e: &CheckedExpression) -> (out: Expression)
        requires
            e.kind matches CheckedKind::Binary { operator, left, .. } && is_bool_equality(
                operator.kind,
                *left,
            ),
            lowerable(*e),
            old(self).next_temporary + temporaries(*e) <= u32::MAX,
        ensures
            final(self).next_lambda == old(self).next_lambda,
            final(self).next_temporary == old(self).next_temporary + temporaries(*e),
            lowers_bool_equality(*e, out, old(self).next_temporary as nat),
        decreases e, 0nat,
    {
        let span = e.span;
        match &e.kind {
            CheckedKind::Binary { operator, left, right } => {
                let left_id = self.temporary();
                let right_id = self.temporary();
                let equal = operator.kind == BinaryOperator::Equal;
                let right_when_false = bool_case_reference(right_id, equal, !equal, span);
                let right_when_true = bool_case_reference(right_id, !equal, equal, span);
                let mut arms: Vec<CaseArm> = Vec::new();
                arms.push(wildcard_arm(0, right_when_false, span));
                arms.push(wildcard_arm(1, right_when_true, span));
                let comparison = case(reference(left_id, bool_type(), span), arms, bool_type(), span);
                let right = self.lower_expression(right);
                let right_let = temporary_let(right_id, right, comparison, span);
                let left = self.lower_expression(left);
                temporary_let(left_id, left, right_let, span)
            },
            _ => {
                proof {
                    assert(false);
                }
                bool_value(false, span)
            },
        }
    }

    #[verifier::spinoff_prover]
    fn lower_list(&mut self, elements: &Vec<CheckedExpression>) -> (outs: Vec<Expression>)
        requires
            lowerable_list(elements@, 0),
            old(self).next_temporary + list_temporaries(elements@, elements@.len() as nat) <= u32::MAX,
        ensures
            final(self).next_lambda == old(self).next_lambda,
            final(self).next_temporary == old(self).next_temporary + list_temporaries(
                elements@,
                elements@.len() as nat,
            ),
            outs@.len() == elements@.len(),
            lowers_list(elements@, outs@, 0, old(self).next_temporary as nat),
        decreases elements, 0nat,
    {
        let ghost first = self.next_temporary as nat;
        proof {
            lemma_lowerable_list(elements@, 0);
        }
        let mut outs: Vec<Expression> = Vec::new();
        let mut k: usize = 0;
        while k < elements.len()
            invariant
                k <= elements@.len(),
                outs@.len() == k,
                self.next_lambda == old(self).next_lambda,
                self.next_temporary == first + list_temporaries(elements@, k as nat),
                first + list_temporaries(elements@, elements@.len() as nat) <= u32::MAX,
                forall|j: int| 0 <= j < elements@.len() ==> lowerable(#[trigger] elements@[j]),
                forall|j: int|
                    0 <= j < k ==> lowers(
                        #[trigger] elements@[j],
                        outs@[j],
                        first + list_temporaries(elements@, j as nat),
                    ),
            decreases elements@.len() - k,
        {
            proof {
                lemma_list_temporaries_monotone(elements@, (k + 1) as nat, elements@.len() as nat);
            }
            outs.push(self.lower_expression(&elements[k]));
            k = k + 1;
        }
        proof {
            lemma_lowers_list(elements@, outs@, 0, first);
        }
        outs
    }

    /// A body item lowered to a binding.
    fn lower_item(&mut self, item: &CheckedItem) -> (binding: Binding)
        requires
            lowerable_item(*item),
            old(self).next_temporary + item_temporaries(*item) <= u32::MAX,
        ensures
            final(self).next_lambda == old(self).next_lambda,
            final(self).next_temporary == old(self).next_temporary + item_temporaries(*item),
            lowers_item(*item, binding, old(self).next_temporary as nat),
        decreases item, 0nat,
    {
        match item {
            CheckedItem::Binding(binding) => Binding {
                pattern: lower_pattern(&binding.pattern),
                value: self.lower_expression(&binding.value),
                span: binding.span,
            },
            CheckedItem::Expression(value) => Binding {
                pattern: Pattern::Wildcard { ty: value.ty.clone(), span: value.span },
                value: self.lower_expression(value),
                span: value.span,
            },
        }
    }

    /// A block lowered to nested `let`s around its result.
    #[verifier::spinoff_prover]
    fn lower_block(&mut self, block: &ExpressionBlock) -> (out: Expression)
        requires
            lowerable_block(*block, 0),
            old(self).next_temporary + block_temporaries(*block, 0) <= u32::MAX,
        ensures
            final(self).next_lambda == old(self).next_lambda,
            final(self).next_temporary == old(self).next_temporary + block_temporaries(*block, 0),
            lowers_block(*block, 0, out, old(self).next_temporary as nat),
        decreases block, 0nat,
    {
        let ghost first = self.next_temporary as nat;
        proof {
            lemma_lowerable_block(*block, 0);
            lemma_block_temporaries_monotone(*block, 0, block.items@.len() as nat);
        }
        let mut body = self.lower_expression(&block.result);
        let mut k = block.items.len();
        while k > 0
            invariant
                k <= block.items@.len(),
                self.next_lambda == old(self).next_lambda,
                self.next_temporary == first + block_temporaries(*block, k as nat),
                first + block_temporaries(*block, 0) <= u32::MAX,
                forall|j: int| 0 <= j < block.items@.len() ==> lowerable_item(#[trigger] block.items@[j]),
                lowers_block(*block, k as nat, body, first),
            decreases k,
        {
            k = k - 1;
            proof {
                lemma_block_temporaries_monotone(*block, 0, k as nat);
            }
            let binding = self.lower_item(&block.items[k]);
            let start = if binding.span.start <= body.span.start {
                binding.span.start
            } else {
                body.span.start
            };
            let end = if binding.span.end >= body.span.end {
                binding.span.end
            } else {
                body.span.end
            };
            let span = Span::new(binding.span.file, start, end);
            let ty = body.ty.clone();
            body = Expression {
                kind: ExpressionKind::Let { binding: Box::new(binding), body: Box::new(body) },
                ty,
                span,
            };
        }
        body
    }

    /// The body of a lambda lowered to nested `let`s around its result.
    #[verifier::spinoff_prover]
    fn lower_lambda_body(&mut self, lambda_body: &LambdaBody) -> (out: Expression)
        requires
            lowerable_lambda_body(*lambda_body, 0),
            old(self).next_temporary + lambda_body_temporaries(*lambda_body, 0) <= u32::MAX,
        ensures
            final(self).next_lambda == old(self).next_lambda,
            final(self).next_temporary == old(self).next_temporary + lambda_body_temporaries(
                *lambda_body,
                0,
            ),
            lowers_lambda_body(*lambda_body, 0, out, old(self).next_temporary as nat),
        decreases lambda_body, 0nat,
    {
        let ghost first = self.next_temporary as nat;
        proof {
            lemma_lowerable_lambda_body(*lambda_body, 0);
            lemma_lambda_body_temporaries_monotone(*lambda_body, 0, lambda_body.items@.len() as nat);
        }
        let mut body = self.lower_expression(&lambda_body.result);
        let mut k = lambda_body.items.len();
        while k > 0
            invariant
                k <= lambda_body.items@.len(),
                self.next_lambda == old(self).next_lambda,
                self.next_temporary == first + lambda_body_temporaries(*lambda_body, k as nat),
                first + lambda_body_temporaries(*lambda_body, 0) <= u32::MAX,
                forall|j: int|
                    0 <= j < lambda_body.items@.len() ==> lowerable_item(
                        #[trigger] lambda_body.items@[j],
                    ),
                lowers_lambda_body(*lambda_body, k as nat, body, first),
            decreases k,
        {
            k = k - 1;
            proof {
                lemma_lambda_body_temporaries_monotone(*lambda_body, 0, k as nat);
            }
            let binding = self.lower_item(&lambda_body.items[k]);
            let start = if binding.span.start <= body.span.start {
                binding.span.start
            } else {
                body.span.start
            };
            let end = if binding.span.end >= body.span.end {
                binding.span.end
            } else {
                body.span.end
            };
            let span = Span::new(binding.span.file, start, end);
            let ty = body.ty.clone();
            body = Expression {
                kind: ExpressionKind::Let { binding: Box::new(binding), body: Box::new(body) },
                ty,
                span,
            };
        }
        body
    }

    /// The arms of a case analysis lowered in order.
    #[verifier::spinoff_prover]
    /// The arms that eliminate a value of type `scrutinee_type` with `continuations`: arm `k`
    /// binds the payload of member `k` to a fresh temporary and passes it to continuation `k`.
    fn lower_continuations(
        &mut self,
        continuations: &Vec<CheckedExpression>,
        scrutinee_type: &Type,
        ty: &Type,
    ) -> (arms: Vec<CaseArm>)
        requires
            *scrutinee_type is Sum,
            lowerable_list(continuations@, 0),
            old(self).next_temporary + elimination_width(continuations@, *scrutinee_type)
                + list_temporaries(continuations@, elimination_width(continuations@, *scrutinee_type))
                <= u32::MAX,
        ensures
            final(self).next_lambda == old(self).next_lambda,
            final(self).next_temporary == old(self).next_temporary + elimination_width(
                continuations@,
                *scrutinee_type,
            ) + list_temporaries(continuations@, elimination_width(continuations@, *scrutinee_type)),
            arms@.len() == elimination_width(continuations@, *scrutinee_type),
            lowers_continuations(
                continuations@,
                sum_members(*scrutinee_type),
                *ty,
                arms@,
                0,
                elimination_width(continuations@, *scrutinee_type),
                old(self).next_temporary as nat,
            ),
        decreases continuations, 0nat,
    {
        let ghost first = self.next_temporary as nat;
        let ghost width = elimination_width(continuations@, *scrutinee_type);
        proof {
            lemma_lowerable_list(continuations@, 0);
        }
        let members = match scrutinee_type {
            Type::Sum(members) => members,
            _ => {
                proof {
                    assert(false);
                }
                return Vec::new();
            },
        };
        let n = if continuations.len() <= members.len() {
            continuations.len()
        } else {
            members.len()
        };
        let mut arms: Vec<CaseArm> = Vec::new();
        let mut k: usize = 0;
        while k < n
            invariant
                n == width,
                width <= continuations@.len(),
                width <= members@.len(),
                members@ == sum_members(*scrutinee_type),
                k <= n,
                arms@.len() == k,
                self.next_lambda == old(self).next_lambda,
                self.next_temporary == first + k + list_temporaries(continuations@, k as nat),
                first + width + list_temporaries(continuations@, width) <= u32::MAX,
                forall|j: int| 0 <= j < continuations@.len() ==> lowerable(#[trigger] continuations@[j]),
                forall|j: int|
                    0 <= j < k ==> lowers_continuation_arm(
                        continuations@,
                        members@,
                        *ty,
                        #[trigger] arms@[j],
                        j as nat,
                        first,
                    ),
            decreases n - k,
        {
            proof {
                lemma_list_temporaries_monotone(continuations@, (k + 1) as nat, width);
            }
            let payload = self.temporary();
            let callee = self.lower_expression(&continuations[k]);
            let span = continuations[k].span;
            let argument = reference(payload, members[k].clone(), span);
            let value = Expression {
                kind: ExpressionKind::Call { callee: Box::new(callee), argument: Box::new(argument) },
                ty: ty.clone(),
                span,
            };
            let arm = CaseArm {
                index: k,
                pattern: Pattern::Binding { id: payload, ty: members[k].clone() },
                value,
                span,
            };
            proof {
                assert(lowers_continuation_arm(continuations@, members@, *ty, arm, k as nat, first));
            }
            arms.push(arm);
            k = k + 1;
        }
        proof {
            lemma_lowers_continuations(continuations@, members@, *ty, arms@, 0, width, first);
        }
        arms
    }

    fn lower_arms(&mut self, arms: &Vec<CheckedArm>) -> (outs: Vec<CaseArm>)
        requires
            lowerable_arms(arms@, 0),
            old(self).next_temporary + arms_temporaries(arms@, arms@.len() as nat) <= u32::MAX,
        ensures
            final(self).next_lambda == old(self).next_lambda,
            final(self).next_temporary == old(self).next_temporary + arms_temporaries(
                arms@,
                arms@.len() as nat,
            ),
            outs@.len() == arms@.len(),
            lowers_arms(arms@, outs@, 0, old(self).next_temporary as nat),
        decreases arms, 0nat,
    {
        let ghost first = self.next_temporary as nat;
        proof {
            lemma_lowerable_arms(arms@, 0);
        }
        let mut outs: Vec<CaseArm> = Vec::new();
        let mut k: usize = 0;
        while k < arms.len()
            invariant
                k <= arms@.len(),
                outs@.len() == k,
                self.next_lambda == old(self).next_lambda,
                self.next_temporary == first + arms_temporaries(arms@, k as nat),
                first + arms_temporaries(arms@, arms@.len() as nat) <= u32::MAX,
                forall|j: int| 0 <= j < arms@.len() ==> lowerable_block(#[trigger] arms@[j].body, 0),
                forall|j: int|
                    0 <= j < k ==> {
                        &&& (#[trigger] outs@[j]).index == arms@[j].index
                        &&& lowers_pattern(arms@[j].pattern, outs@[j].pattern)
                        &&& outs@[j].span == arms@[j].span
                        &&& lowers_block(
                            arms@[j].body,
                            0,
                            outs@[j].value,
                            first + arms_temporaries(arms@, j as nat),
                        )
                    },
            decreases arms@.len() - k,
        {
            proof {
                lemma_arms_temporaries_monotone(arms@, (k + 1) as nat, arms@.len() as nat);
            }
            let arm = &arms[k];
            let pattern = lower_pattern(&arm.pattern);
            let value = self.lower_block(&arm.body);
            outs.push(CaseArm { index: arm.index, pattern, value, span: arm.span });
            k = k + 1;
        }
        proof {
            lemma_lowers_arms(arms@, outs@, 0, first);
        }
        outs
    }

    /// A lambda lowered: several parameters arrive as one product, taken apart first thing.
    fn lower_lambda(&mut self, lambda: &CheckedLambda) -> (out: Lambda)
        requires
            lowerable_lambda_body(lambda.body, 0),
            old(self).next_temporary + (if lambda.parameters@.len() > 1 {
                1nat
            } else {
                0nat
            }) + lambda_body_temporaries(lambda.body, 0) <= u32::MAX,
        ensures
            final(self).next_lambda == old(self).next_lambda,
            final(self).next_temporary == old(self).next_temporary + (if lambda.parameters@.len() > 1 {
                1nat
            } else {
                0nat
            }) + lambda_body_temporaries(lambda.body, 0),
            lowers_lambda(*lambda, out, old(self).next_temporary as nat),
        decreases lambda, 0nat,
    {
        let first_temporary = self.next_temporary;
        let parameters = &lambda.parameters;
        let count = parameters.len();
        let parameter_type = if count == 0 {
            Type::Unit
        } else if count == 1 {
            parameters[0].ty.clone()
        } else {
            parameter_product(parameters)
        };
        let parameter_binding = if count == 0 {
            None
        } else if count == 1 {
            Some(ValueId::Source(parameters[0].binding.id))
        } else {
            Some(self.temporary())
        };
        let mut body = self.lower_lambda_body(&lambda.body);
        if count > 1 {
            let span = lambda.body.span;
            let destructuring = Binding {
                pattern: Pattern::Product {
                    elements: parameter_patterns(parameters),
                    ty: parameter_product(parameters),
                    span,
                },
                value: reference(ValueId::Temporary(first_temporary), parameter_product(parameters), span),
                span,
            };
            let result_type = body.ty.clone();
            body = Expression {
                kind: ExpressionKind::Let { binding: Box::new(destructuring), body: Box::new(body) },
                ty: result_type,
                span,
            };
        }
        let self_binding = match lambda.self_binding {
            Some(id) => Some(ValueId::Source(id)),
            None => None,
        };
        let span = if count == 0 {
            lambda.body.span
        } else {
            parameters[0].span
        };
        Lambda {
            id: lambda.id,
            self_binding,
            captures: lower_captures(&lambda.captures),
            parameter: super::ast::Parameter { binding: parameter_binding, ty: parameter_type, span },
            body: Box::new(body),
        }
    }

    /// An external operation bound to a lambda that passes its parameter on to the operation.
    fn lower_external_operation(
        &mut self,
        id: ExternalOperationId,
        binding: &ValueBinding,
        lambda_id: LambdaId,
        parameter: &Type,
        result: &Type,
        span: Span,
    ) -> (out: TopLevelBinding)
        requires
            !(*parameter is Unit) ==> old(self).next_temporary < u32::MAX,
        ensures
            final(self).next_lambda == old(self).next_lambda,
            final(self).next_temporary == old(self).next_temporary + if !(*parameter is Unit) {
                1nat
            } else {
                0nat
            },
            lowers_external_parts(
                id,
                *binding,
                lambda_id,
                *parameter,
                *result,
                span,
                out,
                old(self).next_temporary as nat,
            ),
    {
        let has_parameter = match parameter {
            Type::Unit => false,
            _ => true,
        };
        let parameter_binding = if has_parameter {
            Some(self.temporary())
        } else {
            None
        };
        let argument = match parameter_binding {
            Some(parameter_id) => reference(parameter_id, parameter.clone(), span),
            None => Expression { kind: ExpressionKind::Unit, ty: Type::Unit, span },
        };
        TopLevelBinding {
            pattern: TopLevelPattern::Binding {
                id: ValueId::Source(binding.id),
                name: binding.name.text.clone(),
                ty: Type::Function {
                    parameter: Box::new(parameter.clone()),
                    result: Box::new(result.clone()),
                },
            },
            value: Expression {
                kind: ExpressionKind::Lambda(
                    Lambda {
                        id: lambda_id,
                        self_binding: None,
                        captures: Vec::new(),
                        parameter: super::ast::Parameter {
                            binding: parameter_binding,
                            ty: parameter.clone(),
                            span,
                        },
                        body: Box::new(
                            Expression {
                                kind: ExpressionKind::ExternalCall {
                                    id,
                                    argument: Box::new(argument),
                                },
                                ty: result.clone(),
                                span,
                            },
                        ),
                    },
                ),
                ty: Type::Function {
                    parameter: Box::new(parameter.clone()),
                    result: Box::new(result.clone()),
                },
                span,
            },
            span,
        }
    }

    /// A top-level binding lowered.
    fn lower_top_level_binding(&mut self, binding: &CheckedBinding) -> (out: TopLevelBinding)
        requires
            lowerable(binding.value),
            old(self).next_temporary + temporaries(binding.value) <= u32::MAX,
        ensures
            final(self).next_lambda == old(self).next_lambda,
            final(self).next_temporary == old(self).next_temporary + temporaries(binding.value),
            lowers_top_level_binding(
                TopItem::Binding(Box::new(*binding)),
                out,
                old(self).next_temporary as nat,
            ),
    {
        let pattern = lower_top_level_pattern(&binding.pattern);
        TopLevelBinding { pattern, value: self.lower_expression(&binding.value), span: binding.span }
    }
}

/// The core program of a checked program: its interface, then each external operation bound to
/// a lambda that calls it, then the top-level bindings lowered in order.
pub fn lower(program: &CheckedProgram) -> (out: Program)
    requires
        lowerable_program(program.items@),
        program_temporaries(program.items@) <= u32::MAX,
    ensures
        lowers_program(*program, out),
{
    let ghost items = program.items@;
    let ghost length = items.len() as int;
    let mut lowerer = Lowerer { next_temporary: 0, next_lambda: 0 };
    let mut bindings: Vec<TopLevelBinding> = Vec::new();
    let mut k: usize = 0;
    while k < program.items.len()
        invariant
            k <= items.len(),
            items == program.items@,
            length == items.len(),
            lowerer.next_temporary == external_temporaries(items, k as int),
            program_temporaries(items) <= u32::MAX,
            bindings@.len() == external_positions(items, k as int).len(),
            forall|i: int|
                0 <= i < bindings@.len() ==> lowers_external(
                    items[#[trigger] external_positions(items, k as int)[i]],
                    bindings@[i],
                    external_temporaries(items, external_positions(items, k as int)[i]),
                ),
        decreases items.len() - k,
    {
        let ghost before = bindings@;
        proof {
            lemma_external_temporaries_monotone(items, k + 1, length);
        }
        let item = &program.items[k];
        match &item.kind {
            TopItem::ExternalOperation { id, binding, lambda_id, parameter, result, .. } => {
                let lowered = lowerer.lower_external_operation(
                    *id,
                    binding,
                    *lambda_id,
                    parameter,
                    result,
                    item.span,
                );
                bindings.push(lowered);
                proof {
                    let positions = external_positions(items, k + 1);
                    assert(positions == external_positions(items, k as int).push(k as int));
                    assert forall|i: int| 0 <= i < bindings@.len() implies lowers_external(
                        items[#[trigger] positions[i]],
                        bindings@[i],
                        external_temporaries(items, positions[i]),
                    ) by {
                        if i < before.len() {
                            assert(bindings@[i] == before[i]);
                        }
                    }
                }
            },
            _ => {},
        }
        k = k + 1;
    }
    let ghost externals = bindings@;
    let ghost external_count = bindings@.len();
    k = 0;
    while k < program.items.len()
        invariant
            k <= items.len(),
            items == program.items@,
            length == items.len(),
            lowerable_program(items),
            external_count == external_positions(items, length).len(),
            lowerer.next_temporary == external_temporaries(items, length) + binding_temporaries(
                items,
                k as int,
            ),
            program_temporaries(items) <= u32::MAX,
            bindings@.len() == external_count + binding_positions(items, k as int).len(),
            forall|i: int| 0 <= i < external_count ==> bindings@[i] == externals[i],
            forall|i: int|
                0 <= i < binding_positions(items, k as int).len() ==> lowers_top_level_binding(
                    items[#[trigger] binding_positions(items, k as int)[i]].kind,
                    bindings@[external_count + i],
                    external_temporaries(items, length) + binding_temporaries(
                        items,
                        binding_positions(items, k as int)[i],
                    ),
                ),
        decreases items.len() - k,
    {
        let ghost before = bindings@;
        proof {
            lemma_binding_temporaries_monotone(items, k + 1, length);
            assert(lowerable_top_item(items[k as int].kind));
        }
        match &program.items[k].kind {
            TopItem::Binding(binding) => {
                let lowered = lowerer.lower_top_level_binding(binding);
                bindings.push(lowered);
                proof {
                    let positions = binding_positions(items, k + 1);
                    assert(positions == binding_positions(items, k as int).push(k as int));
                    assert forall|i: int| 0 <= i < positions.len() implies lowers_top_level_binding(
                        items[#[trigger] positions[i]].kind,
                        bindings@[external_count + i],
                        external_temporaries(items, length) + binding_temporaries(items, positions[i]),
                    ) by {
                        if i < positions.len() - 1 {
                            assert(bindings@[external_count + i] == before[external_count + i]);
                        }
                    }
                }
            },
            _ => {},
        }
        k = k + 1;
    }
    Program { interface: lower_interface(program), bindings, span: program.span }
}

} // verus!
