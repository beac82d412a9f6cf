use vstd::prelude::*;

use crate::ast::{BinaryOperator, Node, UnaryOperator};
use crate::resolve::{
    ExternalOperationId, LambdaId, TypeBinding, TypeId, ValueBinding, ValueId, ValueReference,
};
use crate::source::Span;

verus! {

/// A checked type.
#[derive(Debug, PartialEq, Eq)]
pub enum Type {
    Unit,
    Int8,
    Int16,
    Int32,
    Int64,
    UInt8,
    UInt16,
    UInt32,
    UInt64,
    Float32,
    Float64,
    Symbol,
    Ptr,
    Address,
    ByteSize,
    USize,
    Parameter { id: TypeId, name: String },
    External { id: TypeId, name: String },
    Product(Vec<Type>),
    Sum(Vec<Type>),
    Function { parameter: Box<Type>, result: Box<Type> },
    Cursor(Box<Type>),
    Region(Box<Type>),
    Packed(Box<Type>),
}

#[derive(Debug, PartialEq, Eq)]
pub struct Program {
    pub items: Vec<Node<TopItem>>,
    pub span: Span,
}

#[derive(Debug, PartialEq, Eq)]
pub enum TopItem {
    TypeAlias {
        binding: TypeBinding,
        ty: Type,
        target_alias: Option<String>,
        element_aliases: Vec<Option<String>>,
    },
    ExternalType { binding: TypeBinding },
    ExternalOperation {
        id: ExternalOperationId,
        binding: ValueBinding,
        lambda_id: LambdaId,
        parameter: Type,
        parameter_alias: Option<String>,
        parameter_aliases: Vec<Option<String>>,
        result: Type,
        result_alias: Option<String>,
    },
    Binding(Box<Binding>),
}

#[derive(Debug, PartialEq, Eq)]
pub struct Binding {
    pub pattern: Pattern,
    pub annotation: Option<Type>,
    pub value: Expression,
    pub span: Span,
}

#[derive(Debug, PartialEq, Eq)]
pub enum Pattern {
    Binding { binding: ValueBinding, ty: Type },
    Wildcard { ty: Type, span: Span },
    Product { elements: Vec<Pattern>, ty: Type, span: Span },
}

#[derive(Debug, PartialEq, Eq)]
pub struct Expression {
    pub kind: ExpressionKind,
    pub ty: Type,
    pub span: Span,
}

#[derive(Debug, PartialEq, Eq)]
pub enum ExpressionKind {
    Reference(ValueReference),
    Integer(i128),
    Float(u64),
    Symbol(Vec<u8>),
    StorageSize(Type),
    Unit,
    Product(Vec<Expression>),
    Parenthesized(Box<Expression>),
    Lambda(Lambda),
    Call { callee: Box<Expression>, argument: Box<Expression> },
    SymbolLength { value: Box<Expression> },
    SymbolAt { argument: Box<Expression> },
    MemoryFunction { primitive: MemoryPrimitive },
    Memory { primitive: MemoryPrimitive, argument: Box<Expression> },
    NumericConversion { value: Box<Expression> },
    SumInjection { index: usize, value: Box<Expression> },
    SumElimination { scrutinee: Box<Expression>, continuations: Vec<Expression> },
    If {
        condition: Box<Expression>,
        then_branch: ExpressionBlock,
        else_branch: ExpressionBlock,
    },
    Case { scrutinee: Box<Expression>, arms: Vec<CaseArm> },
    Unary { operator: Node<UnaryOperator>, operand: Box<Expression> },
    Binary {
        operator: Node<BinaryOperator>,
        left: Box<Expression>,
        right: Box<Expression>,
    },
}

#[derive(Clone, Copy, Debug, PartialEq, Eq, Hash, Structural)]
pub enum MemoryPrimitive {
    OffsetForward,
    OffsetBackward,
    Load(MemoryScalar),
    Store(MemoryScalar),
    LoadPtr,
    StorePtr,
    LoadSymbol,
    StoreSymbol,
}

#[derive(Clone, Copy, Debug, PartialEq, Eq, Hash, Structural)]
pub enum MemoryScalar {
    Int8,
    Int16,
    Int32,
    Int64,
    UInt8,
    UInt16,
    UInt32,
    UInt64,
    Float32,
    Float64,
}

/// The type a memory scalar is loaded as.
pub open spec fn scalar_type(scalar: MemoryScalar) -> Type {
    match scalar {
        MemoryScalar::Int8 => Type::Int8,
        MemoryScalar::Int16 => Type::Int16,
        MemoryScalar::Int32 => Type::Int32,
        MemoryScalar::Int64 => Type::Int64,
        MemoryScalar::UInt8 => Type::UInt8,
        MemoryScalar::UInt16 => Type::UInt16,
        MemoryScalar::UInt32 => Type::UInt32,
        MemoryScalar::UInt64 => Type::UInt64,
        MemoryScalar::Float32 => Type::Float32,
        MemoryScalar::Float64 => Type::Float64,
    }
}

/// `ty` is the product of exactly `elements`.
pub open spec fn is_product_of(ty: Type, elements: Seq<Type>) -> bool {
    ty matches Type::Product(v) && v@ == elements
}

/// `signature` is the parameter and result type of a memory primitive.
pub open spec fn is_primitive_signature(primitive: MemoryPrimitive, signature: (Type, Type)) -> bool {
    match primitive {
        MemoryPrimitive::OffsetForward | MemoryPrimitive::OffsetBackward => is_product_of(
            signature.0,
            seq![Type::Ptr, Type::UInt64],
        ) && signature.1 == Type::Ptr,
        MemoryPrimitive::Load(scalar) => signature.0 == Type::Ptr && signature.1 == scalar_type(
            scalar,
        ),
        MemoryPrimitive::Store(scalar) => is_product_of(
            signature.0,
            seq![Type::Ptr, scalar_type(scalar)],
        ) && signature.1 == Type::Unit,
        MemoryPrimitive::LoadPtr => signature.0 == Type::Ptr && signature.1 == Type::Ptr,
        MemoryPrimitive::StorePtr => is_product_of(signature.0, seq![Type::Ptr, Type::Ptr])
            && signature.1 == Type::Unit,
        MemoryPrimitive::LoadSymbol => is_product_of(signature.0, seq![Type::Ptr, Type::UInt64])
            && signature.1 == Type::Symbol,
        MemoryPrimitive::StoreSymbol => is_product_of(signature.0, seq![Type::Ptr, Type::Symbol])
            && signature.1 == Type::Unit,
    }
}

fn pair(first: Type, second: Type) -> (ty: Type)
    ensures
        is_product_of(ty, seq![first, second]),
{
    let mut elements: Vec<Type> = Vec::new();
    elements.push(first);
    elements.push(second);
    assert(elements@ =~= seq![first, second]);
    Type::Product(elements)
}

impl MemoryPrimitive {
    pub fn signature(self) -> (signature: (Type, Type))
        ensures
            is_primitive_signature(self, signature),
    {
        match self {
            MemoryPrimitive::OffsetForward | MemoryPrimitive::OffsetBackward => {
                (pair(Type::Ptr, Type::UInt64), Type::Ptr)
            },
            MemoryPrimitive::Load(scalar) => (Type::Ptr, scalar.ty()),
            MemoryPrimitive::Store(scalar) => (pair(Type::Ptr, scalar.ty()), Type::Unit),
            MemoryPrimitive::LoadPtr => (Type::Ptr, Type::Ptr),
            MemoryPrimitive::StorePtr => (pair(Type::Ptr, Type::Ptr), Type::Unit),
            MemoryPrimitive::LoadSymbol => (pair(Type::Ptr, Type::UInt64), Type::Symbol),
            MemoryPrimitive::StoreSymbol => (
                pair(Type::Ptr, Type::Symbol),
                Type::Unit,
            ),
        }
    }
}

impl MemoryScalar {
    pub fn ty(self) -> (ty: Type)
        ensures
            ty == scalar_type(self),
    {
        match self {
            MemoryScalar::Int8 => Type::Int8,
            MemoryScalar::Int16 => Type::Int16,
            MemoryScalar::Int32 => Type::Int32,
            MemoryScalar::Int64 => Type::Int64,
            MemoryScalar::UInt8 => Type::UInt8,
            MemoryScalar::UInt16 => Type::UInt16,
            MemoryScalar::UInt32 => Type::UInt32,
            MemoryScalar::UInt64 => Type::UInt64,
            MemoryScalar::Float32 => Type::Float32,
            MemoryScalar::Float64 => Type::Float64,
        }
    }
}

impl Type {
    /// Equality of types by structure: vectors compare by their elements.
    pub open spec fn deep_equal(self, other: Type) -> bool
        decreases self, 0nat,
    {
        match self {
            Type::Product(a) => match other {
                Type::Product(b) => a@.len() == b@.len() && all_deep_equal(a@, b@, 0),
                _ => false,
            },
            Type::Sum(a) => match other {
                Type::Sum(b) => a@.len() == b@.len() && all_deep_equal(a@, b@, 0),
                _ => false,
            },
            Type::Function { parameter: p1, result: r1 } => match other {
                Type::Function { parameter: p2, result: r2 } => p1.deep_equal(*p2) && r1.deep_equal(
                    *r2,
                ),
                _ => false,
            },
            Type::Cursor(a) => match other {
                Type::Cursor(b) => a.deep_equal(*b),
                _ => false,
            },
            Type::Region(a) => match other {
                Type::Region(b) => a.deep_equal(*b),
                _ => false,
            },
            Type::Packed(a) => match other {
                Type::Packed(b) => a.deep_equal(*b),
                _ => false,
            },
            Type::Parameter { id: i1, name: n1 } => match other {
                Type::Parameter { id: i2, name: n2 } => i1 == i2 && n1@ == n2@,
                _ => false,
            },
            Type::External { id: i1, name: n1 } => match other {
                Type::External { id: i2, name: n2 } => i1 == i2 && n1@ == n2@,
                _ => false,
            },
            _ => self == other,
        }
    }
}

/// The types of `a` from index `from` on are structurally equal to those of `b`.
pub open spec fn all_deep_equal(a: Seq<Type>, b: Seq<Type>, from: nat) -> bool
    decreases a, a.len() - from,
{
    if from >= a.len() {
        true
    } else {
        a[from as int].deep_equal(b[from as int]) && all_deep_equal(a, b, from + 1)
    }
}

pub proof fn lemma_all_deep_equal(a: Seq<Type>, b: Seq<Type>, from: nat)
    requires
        forall|i: int| 0 <= i < a.len() ==> #[trigger] a[i].deep_equal(b[i]),
    ensures
        all_deep_equal(a, b, from),
    decreases a.len() - from,
{
    if from < a.len() {
        lemma_all_deep_equal(a, b, from + 1);
        assert(a[from as int].deep_equal(b[from as int]));
    }
}

pub proof fn lemma_all_deep_equal_at(a: Seq<Type>, b: Seq<Type>, from: nat)
    requires
        all_deep_equal(a, b, from),
    ensures
        forall|i: int| from <= i < a.len() ==> #[trigger] a[i].deep_equal(b[i]),
    decreases a.len() - from,
{
    if from < a.len() {
        lemma_all_deep_equal_at(a, b, from + 1);
    }
}

/// Every type is structurally equal to itself.
pub proof fn lemma_deep_equal_reflexive(t: Type)
    ensures
        t.deep_equal(t),
    decreases t,
{
    match t {
        Type::Product(a) => {
            assert forall|i: int| 0 <= i < a@.len() implies #[trigger] a@[i].deep_equal(a@[i]) by {
                lemma_deep_equal_reflexive(a@[i]);
            }
            lemma_all_deep_equal(a@, a@, 0);
        },
        Type::Sum(a) => {
            assert forall|i: int| 0 <= i < a@.len() implies #[trigger] a@[i].deep_equal(a@[i]) by {
                lemma_deep_equal_reflexive(a@[i]);
            }
            lemma_all_deep_equal(a@, a@, 0);
        },
        Type::Function { parameter, result } => {
            lemma_deep_equal_reflexive(*parameter);
            lemma_deep_equal_reflexive(*result);
        },
        Type::Cursor(e) => lemma_deep_equal_reflexive(*e),
        Type::Region(e) => lemma_deep_equal_reflexive(*e),
        Type::Packed(e) => lemma_deep_equal_reflexive(*e),
        _ => {},
    }
}

/// Structural equality of types is symmetric.
pub proof fn lemma_deep_equal_symmetric(a: Type, b: Type)
    requires
        a.deep_equal(b),
    ensures
        b.deep_equal(a),
    decreases a,
{
    match (a, b) {
        (Type::Product(x), Type::Product(y)) | (Type::Sum(x), Type::Sum(y)) => {
            lemma_all_deep_equal_at(x@, y@, 0);
            assert forall|i: int| 0 <= i < y@.len() implies #[trigger] y@[i].deep_equal(x@[i]) by {
                lemma_deep_equal_symmetric(x@[i], y@[i]);
            }
            lemma_all_deep_equal(y@, x@, 0);
        },
        (Type::Function { parameter: p1, result: r1 }, Type::Function { parameter: p2, result: r2 }) => {
            lemma_deep_equal_symmetric(*p1, *p2);
            lemma_deep_equal_symmetric(*r1, *r2);
        },
        (Type::Cursor(x), Type::Cursor(y)) => lemma_deep_equal_symmetric(*x, *y),
        (Type::Region(x), Type::Region(y)) => lemma_deep_equal_symmetric(*x, *y),
        (Type::Packed(x), Type::Packed(y)) => lemma_deep_equal_symmetric(*x, *y),
        _ => {},
    }
}

/// Structural equality of types is transitive.
pub proof fn lemma_deep_equal_transitive(a: Type, b: Type, c: Type)
    requires
        a.deep_equal(b),
        b.deep_equal(c),
    ensures
        a.deep_equal(c),
    decreases a,
{
    match (a, b, c) {
        (Type::Product(x), Type::Product(y), Type::Product(z)) | (Type::Sum(x), Type::Sum(y), Type::Sum(z)) => {
            lemma_all_deep_equal_at(x@, y@, 0);
            lemma_all_deep_equal_at(y@, z@, 0);
            assert forall|i: int| 0 <= i < x@.len() implies #[trigger] x@[i].deep_equal(z@[i]) by {
                lemma_deep_equal_transitive(x@[i], y@[i], z@[i]);
            }
            lemma_all_deep_equal(x@, z@, 0);
        },
        (Type::Function { parameter: p1, result: r1 }, Type::Function { parameter: p2, result: r2 }, Type::Function { parameter: p3, result: r3 }) => {
            lemma_deep_equal_transitive(*p1, *p2, *p3);
            lemma_deep_equal_transitive(*r1, *r2, *r3);
        },
        (Type::Cursor(x), Type::Cursor(y), Type::Cursor(z)) => lemma_deep_equal_transitive(*x, *y, *z),
        (Type::Region(x), Type::Region(y), Type::Region(z)) => lemma_deep_equal_transitive(*x, *y, *z),
        (Type::Packed(x), Type::Packed(y), Type::Packed(z)) => lemma_deep_equal_transitive(*x, *y, *z),
        _ => {},
    }
}

proof fn lemma_aggregate_equal(a: Vec<Type>, b: Vec<Type>)
    requires
        a@.len() == b@.len(),
        forall|i: int| 0 <= i < a@.len() ==> #[trigger] a@[i].deep_equal(b@[i]),
    ensures
        Type::Product(a).deep_equal(Type::Product(b)),
        Type::Sum(a).deep_equal(Type::Sum(b)),
{
    lemma_all_deep_equal(a@, b@, 0);
}

/// A copy of `ty` with the same structure.
pub fn duplicate_type(ty: &Type) -> (copy: Type)
    ensures
        copy.deep_equal(*ty),
    decreases ty,
{
    match ty {
        Type::Unit => Type::Unit,
        Type::Int8 => Type::Int8,
        Type::Int16 => Type::Int16,
        Type::Int32 => Type::Int32,
        Type::Int64 => Type::Int64,
        Type::UInt8 => Type::UInt8,
        Type::UInt16 => Type::UInt16,
        Type::UInt32 => Type::UInt32,
        Type::UInt64 => Type::UInt64,
        Type::Float32 => Type::Float32,
        Type::Float64 => Type::Float64,
        Type::Symbol => Type::Symbol,
        Type::Ptr => Type::Ptr,
        Type::Address => Type::Address,
        Type::ByteSize => Type::ByteSize,
        Type::USize => Type::USize,
        Type::Parameter { id, name } => Type::Parameter { id: *id, name: name.clone() },
        Type::External { id, name } => Type::External { id: *id, name: name.clone() },
        Type::Product(elements) => {
            let copies = duplicate_types(elements);
            proof {
                lemma_aggregate_equal(copies, *elements);
            }
            Type::Product(copies)
        },
        Type::Sum(members) => {
            let copies = duplicate_types(members);
            proof {
                lemma_aggregate_equal(copies, *members);
            }
            Type::Sum(copies)
        },
        Type::Function { parameter, result } => Type::Function {
            parameter: Box::new(duplicate_type(parameter)),
            result: Box::new(duplicate_type(result)),
        },
        Type::Cursor(element) => Type::Cursor(Box::new(duplicate_type(element))),
        Type::Region(element) => Type::Region(Box::new(duplicate_type(element))),
        Type::Packed(element) => Type::Packed(Box::new(duplicate_type(element))),
    }
}

/// Copies of each type of `types`.
pub fn duplicate_types(types: &Vec<Type>) -> (copies: Vec<Type>)
    ensures
        copies@.len() == types@.len(),
        forall|i: int| 0 <= i < types@.len() ==> #[trigger] copies@[i].deep_equal(types@[i]),
    decreases types,
{
    let mut copies: Vec<Type> = Vec::new();
    let mut index: usize = 0;
    while index < types.len()
        invariant
            index <= types@.len(),
            copies@.len() == index,
            forall|i: int| 0 <= i < index ==> #[trigger] copies@[i].deep_equal(types@[i]),
        decreases types@.len() - index,
    {
        copies.push(duplicate_type(&types[index]));
        index = index + 1;
    }
    copies
}

impl Clone for Type {
    fn clone(&self) -> (copy: Type)
        ensures
            copy.deep_equal(*self),
    {
        duplicate_type(self)
    }
}

#[derive(Debug, PartialEq, Eq)]
pub struct Lambda {
    pub id: LambdaId,
    pub self_binding: Option<ValueId>,
    pub captures: Vec<Capture>,
    pub parameters: Vec<Parameter>,
    pub body: LambdaBody,
}

#[derive(Debug, PartialEq, Eq)]
pub struct Capture {
    pub source: ValueReference,
    pub binding: ValueBinding,
    pub ty: Type,
}

#[derive(Debug, PartialEq, Eq)]
pub struct Parameter {
    pub binding: ValueBinding,
    pub ty: Type,
    pub span: Span,
}

#[derive(Debug, PartialEq, Eq)]
pub struct LambdaBody {
    pub items: Vec<BodyItem>,
    pub result: Box<Expression>,
    pub span: Span,
}

#[derive(Debug, PartialEq, Eq)]
pub struct ExpressionBlock {
    pub items: Vec<BodyItem>,
    pub result: Box<Expression>,
    pub span: Span,
}

#[derive(Debug, PartialEq, Eq)]
pub enum BodyItem {
    Binding(Binding),
    Expression(Expression),
}

#[derive(Debug, PartialEq, Eq)]
pub struct CaseArm {
    pub index: usize,
    pub pattern: Pattern,
    pub body: ExpressionBlock,
    pub span: Span,
}

} // verus!
