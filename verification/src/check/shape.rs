use vstd::prelude::*;

use crate::resolve::TypeId;

use super::ast::{Type, lemma_all_deep_equal, lemma_all_deep_equal_at};
use super::types::{first_unrepresentable, first_unrepresentable_in, memory_representable};

verus! {

/// The structure of a type, with sequences in place of vectors and texts in place of strings:
/// two types have the same shape exactly when they are structurally equal.
pub enum Shape {
    Leaf(Type),
    Parameter(TypeId, Seq<char>),
    External(TypeId, Seq<char>),
    Product(Seq<Shape>),
    Sum(Seq<Shape>),
    Function(Box<Shape>, Box<Shape>),
    Cursor(Box<Shape>),
    Region(Box<Shape>),
    Packed(Box<Shape>),
}

/// The shape of `ty`.
pub open spec fn shape(ty: Type) -> Shape
    decreases ty, 1nat,
{
    match ty {
        Type::Parameter { id, name } => Shape::Parameter(id, name@),
        Type::External { id, name } => Shape::External(id, name@),
        Type::Product(elements) => Shape::Product(shapes(elements@, elements@.len())),
        Type::Sum(members) => Shape::Sum(shapes(members@, members@.len())),
        Type::Function { parameter, result } => Shape::Function(
            Box::new(shape(*parameter)),
            Box::new(shape(*result)),
        ),
        Type::Cursor(element) => Shape::Cursor(Box::new(shape(*element))),
        Type::Region(element) => Shape::Region(Box::new(shape(*element))),
        Type::Packed(element) => Shape::Packed(Box::new(shape(*element))),
        _ => Shape::Leaf(ty),
    }
}

/// The shapes of the first `count` types.
pub open spec fn shapes(types: Seq<Type>, count: nat) -> Seq<Shape>
    decreases types, count,
{
    if count == 0 || count > types.len() {
        Seq::empty()
    } else {
        shapes(types, (count - 1) as nat).push(shape(types[count - 1]))
    }
}

/// The shapes of the first `count` types, one for each, in order.
pub proof fn lemma_shapes(types: Seq<Type>, count: nat)
    requires
        count <= types.len(),
    ensures
        shapes(types, count).len() == count,
        forall|i: int| 0 <= i < count ==> #[trigger] shapes(types, count)[i] == shape(types[i]),
    decreases count,
{
    if count > 0 {
        lemma_shapes(types, (count - 1) as nat);
    }
}

/// Structurally equal types have the same shape.
pub proof fn lemma_deep_equal_shape(a: Type, b: Type)
    requires
        a.deep_equal(b),
    ensures
        shape(a) == shape(b),
    decreases a,
{
    match (a, b) {
        (Type::Product(x), Type::Product(y)) | (Type::Sum(x), Type::Sum(y)) => {
            lemma_all_deep_equal_at(x@, y@, 0);
            lemma_shapes(x@, x@.len());
            lemma_shapes(y@, y@.len());
            assert forall|i: int| 0 <= i < x@.len() implies shapes(x@, x@.len())[i] == shapes(
                y@,
                y@.len(),
            )[i] by {
                lemma_deep_equal_shape(x@[i], y@[i]);
            }
            assert(shapes(x@, x@.len()) =~= shapes(y@, y@.len()));
        },
        (Type::Function { parameter: p1, result: r1 }, Type::Function { parameter: p2, result: r2 }) => {
            lemma_deep_equal_shape(*p1, *p2);
            lemma_deep_equal_shape(*r1, *r2);
        },
        (Type::Cursor(x), Type::Cursor(y)) => lemma_deep_equal_shape(*x, *y),
        (Type::Region(x), Type::Region(y)) => lemma_deep_equal_shape(*x, *y),
        (Type::Packed(x), Type::Packed(y)) => lemma_deep_equal_shape(*x, *y),
        _ => {},
    }
}

/// Types of the same shape are structurally equal.
pub proof fn lemma_shape_deep_equal(a: Type, b: Type)
    requires
        shape(a) == shape(b),
    ensures
        a.deep_equal(b),
    decreases a,
{
    match (a, b) {
        (Type::Product(x), Type::Product(y)) | (Type::Sum(x), Type::Sum(y)) => {
            lemma_shapes(x@, x@.len());
            lemma_shapes(y@, y@.len());
            assert forall|i: int| 0 <= i < x@.len() implies #[trigger] x@[i].deep_equal(y@[i]) by {
                assert(shapes(x@, x@.len())[i] == shapes(y@, y@.len())[i]);
                lemma_shape_deep_equal(x@[i], y@[i]);
            }
            lemma_all_deep_equal(x@, y@, 0);
        },
        (Type::Function { parameter: p1, result: r1 }, Type::Function { parameter: p2, result: r2 }) => {
            lemma_shape_deep_equal(*p1, *p2);
            lemma_shape_deep_equal(*r1, *r2);
        },
        (Type::Cursor(x), Type::Cursor(y)) => lemma_shape_deep_equal(*x, *y),
        (Type::Region(x), Type::Region(y)) => lemma_shape_deep_equal(*x, *y),
        (Type::Packed(x), Type::Packed(y)) => lemma_shape_deep_equal(*x, *y),
        _ => {},
    }
}

/// Some type of shape `s` has a canonical memory representation; then all of them do.
pub open spec fn shape_representable(s: Shape) -> bool {
    exists|t: Type| shape(t) == s && #[trigger] memory_representable(t)
}

proof fn lemma_first_unrepresentable_same(a: Type, b: Type)
    requires
        a.deep_equal(b),
    ensures
        (first_unrepresentable(a) is None) == (first_unrepresentable(b) is None),
    decreases a, 0nat,
{
    match (a, b) {
        (Type::Product(x), Type::Product(y)) | (Type::Sum(x), Type::Sum(y)) => {
            lemma_all_deep_equal_at(x@, y@, 0);
            lemma_first_unrepresentable_in_same(x@, y@, 0);
        },
        _ => {},
    }
}

proof fn lemma_first_unrepresentable_in_same(x: Seq<Type>, y: Seq<Type>, from: nat)
    requires
        x.len() == y.len(),
        forall|i: int| 0 <= i < x.len() ==> #[trigger] x[i].deep_equal(y[i]),
    ensures
        (first_unrepresentable_in(x, from) is None) == (first_unrepresentable_in(y, from) is None),
    decreases x, x.len() - from,
{
    if from < x.len() {
        lemma_first_unrepresentable_same(x[from as int], y[from as int]);
        lemma_first_unrepresentable_in_same(x, y, from + 1);
    }
}

/// A type of shape `s` has a memory representation exactly when the shape is representable.
pub proof fn lemma_shape_representable(t: Type)
    ensures
        shape_representable(shape(t)) == memory_representable(t),
{
    if shape_representable(shape(t)) {
        let u = choose|u: Type| shape(u) == shape(t) && #[trigger] memory_representable(u);
        lemma_shape_deep_equal(u, t);
        lemma_first_unrepresentable_same(u, t);
    }
}

} // verus!
