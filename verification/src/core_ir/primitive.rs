use vstd::prelude::*;

use crate::ast::BinaryOperator;

use super::ast::BinaryPrimitive;

verus! {

/// The binary operators that lower to a primitive of the same name; symbol access, stores and
/// the logical operators are lowered by their own rules.
pub open spec fn is_primitive_operator(operator: BinaryOperator) -> bool {
    !(operator is SymbolAt || operator is Store || operator is LogicalAnd || operator is LogicalOr)
}

/// The primitive of the same name as `operator`.
pub open spec fn primitive_of(operator: BinaryOperator) -> BinaryPrimitive {
    match operator {
        BinaryOperator::Multiply => BinaryPrimitive::Multiply,
        BinaryOperator::Divide => BinaryPrimitive::Divide,
        BinaryOperator::Remainder => BinaryPrimitive::Remainder,
        BinaryOperator::Add => BinaryPrimitive::Add,
        BinaryOperator::Subtract => BinaryPrimitive::Subtract,
        BinaryOperator::ShiftLeft => BinaryPrimitive::ShiftLeft,
        BinaryOperator::ShiftRight => BinaryPrimitive::ShiftRight,
        BinaryOperator::Less => BinaryPrimitive::Less,
        BinaryOperator::LessEqual => BinaryPrimitive::LessEqual,
        BinaryOperator::Greater => BinaryPrimitive::Greater,
        BinaryOperator::GreaterEqual => BinaryPrimitive::GreaterEqual,
        BinaryOperator::Equal => BinaryPrimitive::Equal,
        BinaryOperator::NotEqual => BinaryPrimitive::NotEqual,
        BinaryOperator::BitwiseAnd => BinaryPrimitive::BitwiseAnd,
        BinaryOperator::BitwiseXor => BinaryPrimitive::BitwiseXor,
        _ => BinaryPrimitive::BitwiseOr,
    }
}

/// The primitive that a binary operator lowers to.
pub fn lower_binary_primitive(operator: BinaryOperator) -> (primitive: BinaryPrimitive)
    requires
        is_primitive_operator(operator),
    ensures
        primitive == primitive_of(operator),
        primitive_symbol(primitive) == operator_symbol(operator),
{
    match operator {
        BinaryOperator::Multiply => BinaryPrimitive::Multiply,
        BinaryOperator::Divide => BinaryPrimitive::Divide,
        BinaryOperator::Remainder => BinaryPrimitive::Remainder,
        BinaryOperator::Add => BinaryPrimitive::Add,
        BinaryOperator::Subtract => BinaryPrimitive::Subtract,
        BinaryOperator::ShiftLeft => BinaryPrimitive::ShiftLeft,
        BinaryOperator::ShiftRight => BinaryPrimitive::ShiftRight,
        BinaryOperator::Less => BinaryPrimitive::Less,
        BinaryOperator::LessEqual => BinaryPrimitive::LessEqual,
        BinaryOperator::Greater => BinaryPrimitive::Greater,
        BinaryOperator::GreaterEqual => BinaryPrimitive::GreaterEqual,
        BinaryOperator::Equal => BinaryPrimitive::Equal,
        BinaryOperator::NotEqual => BinaryPrimitive::NotEqual,
        BinaryOperator::BitwiseAnd => BinaryPrimitive::BitwiseAnd,
        BinaryOperator::BitwiseXor => BinaryPrimitive::BitwiseXor,
        _ => BinaryPrimitive::BitwiseOr,
    }
}

/// How a binary operator is written in source text.
pub open spec fn operator_symbol(operator: BinaryOperator) -> Seq<char> {
    match operator {
        BinaryOperator::Multiply => "*"@,
        BinaryOperator::Divide => "/"@,
        BinaryOperator::Remainder => "%"@,
        BinaryOperator::Add => "+"@,
        BinaryOperator::Subtract => "-"@,
        BinaryOperator::ShiftLeft => "<<"@,
        BinaryOperator::ShiftRight => ">>"@,
        BinaryOperator::Less => "<"@,
        BinaryOperator::LessEqual => "<="@,
        BinaryOperator::Greater => ">"@,
        BinaryOperator::GreaterEqual => ">="@,
        BinaryOperator::Equal => "=="@,
        BinaryOperator::NotEqual => "!="@,
        BinaryOperator::BitwiseAnd => "&"@,
        BinaryOperator::BitwiseXor => "^"@,
        BinaryOperator::BitwiseOr => "|"@,
        BinaryOperator::LogicalAnd => "&&"@,
        BinaryOperator::LogicalOr => "||"@,
        BinaryOperator::SymbolAt => "@"@,
        BinaryOperator::Store => "store"@,
    }
}

/// The operation a binary primitive performs, written as the operator that computes it.
pub open spec fn primitive_symbol(primitive: BinaryPrimitive) -> Seq<char> {
    match primitive {
        BinaryPrimitive::Multiply => "*"@,
        BinaryPrimitive::Divide => "/"@,
        BinaryPrimitive::Remainder => "%"@,
        BinaryPrimitive::Add => "+"@,
        BinaryPrimitive::Subtract => "-"@,
        BinaryPrimitive::ShiftLeft => "<<"@,
        BinaryPrimitive::ShiftRight => ">>"@,
        BinaryPrimitive::Less => "<"@,
        BinaryPrimitive::LessEqual => "<="@,
        BinaryPrimitive::Greater => ">"@,
        BinaryPrimitive::GreaterEqual => ">="@,
        BinaryPrimitive::Equal => "=="@,
        BinaryPrimitive::NotEqual => "!="@,
        BinaryPrimitive::BitwiseAnd => "&"@,
        BinaryPrimitive::BitwiseXor => "^"@,
        BinaryPrimitive::BitwiseOr => "|"@,
    }
}

/// Lowering keeps the operation: every operator that has a primitive lowers to the primitive
/// that computes what the operator is written as (`a < b` stays a less-than comparison,
/// `a > b` a greater-than comparison, and so on for every operator).
pub proof fn lemma_lowering_keeps_operation(operator: BinaryOperator)
    requires
        is_primitive_operator(operator),
    ensures
        primitive_symbol(primitive_of(operator)) == operator_symbol(operator),
{
}

/// Distinct operators lower to distinct primitives.
pub proof fn lemma_lowering_is_injective(a: BinaryOperator, b: BinaryOperator)
    requires
        is_primitive_operator(a),
        is_primitive_operator(b),
        primitive_of(a) == primitive_of(b),
    ensures
        a == b,
{
}

} // verus!
