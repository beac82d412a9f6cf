use vstd::prelude::*;

use crate::ast::{Name, Node};

verus! {

/// A resolved type declaration.
#[derive(Clone, Copy, Debug, PartialEq, Eq, Hash, Structural)]
pub struct TypeId(pub u32);

/// A resolved value binding.
#[derive(Clone, Copy, Debug, PartialEq, Eq, Hash, Structural)]
pub struct ValueId(pub u32);

/// A lambda of the source program.
#[derive(Clone, Copy, Debug, PartialEq, Eq, Hash, Structural)]
pub struct LambdaId(pub u32);

/// An `extern` operation of the source program.
#[derive(Clone, Copy, Debug, PartialEq, Eq, Hash, Structural)]
pub struct ExternalOperationId(pub u32);

/// The predefined value `false`.
pub const FALSE_VALUE: u32 = 0;

/// The predefined value `true`.
pub const TRUE_VALUE: u32 = 1;

/// Identifiers of the predefined types.
pub const UNIT_TYPE: u32 = 0;
pub const INT8_TYPE: u32 = 1;
pub const INT16_TYPE: u32 = 2;
pub const INT32_TYPE: u32 = 3;
pub const INT64_TYPE: u32 = 4;
pub const UINT8_TYPE: u32 = 5;
pub const UINT16_TYPE: u32 = 6;
pub const UINT32_TYPE: u32 = 7;
pub const UINT64_TYPE: u32 = 8;
pub const FLOAT32_TYPE: u32 = 9;
pub const FLOAT64_TYPE: u32 = 10;
pub const BOOL_TYPE: u32 = 11;
pub const SYMBOL_TYPE: u32 = 12;
pub const ADDRESS_TYPE: u32 = 13;
pub const BYTE_SIZE_TYPE: u32 = 14;
pub const U_SIZE_TYPE: u32 = 15;
pub const CURSOR_TYPE: u32 = 16;
pub const REGION_TYPE: u32 = 17;
pub const PACKED_TYPE: u32 = 18;

/// Who introduced a value binding.
#[derive(Clone, Copy, Debug, PartialEq, Eq, Structural)]
pub enum ValueOwner {
    TopLevel,
    Lambda(LambdaId),
    Result(LambdaId),
}

#[derive(Clone, Debug, PartialEq, Eq)]
pub struct TypeBinding {
    pub id: TypeId,
    pub name: Name,
}

#[derive(Clone, Debug, PartialEq, Eq)]
pub struct ValueBinding {
    pub id: ValueId,
    pub name: Name,
    pub owner: ValueOwner,
}

#[derive(Clone, Debug, PartialEq, Eq)]
pub struct ValueReference {
    pub id: ValueId,
    pub name: Name,
}

#[derive(Clone, Debug, PartialEq, Eq)]
pub struct TypeReference {
    pub id: TypeId,
    pub name: Name,
}

/// A type as the program writes it, with its names resolved.
#[derive(Debug, PartialEq, Eq)]
pub enum TypeExpression {
    Named(TypeReference),
    Application { constructor: TypeReference, arguments: Vec<Node<TypeExpression>> },
    Unit,
    Parenthesized(Box<Node<TypeExpression>>),
    Product(Vec<Node<TypeExpression>>),
    Sum(Vec<Node<TypeExpression>>),
    Function { parameter: Box<Node<TypeExpression>>, result: Box<Node<TypeExpression>> },
}

} // verus!
