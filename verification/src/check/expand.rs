use std::collections::{HashMap, HashSet};

use vstd::prelude::*;

use crate::ast::Node;
use crate::diagnostic::Diagnostic;
use crate::resolve::{
    CURSOR_TYPE, PACKED_TYPE, REGION_TYPE, BOOL_TYPE, TypeBinding, TypeExpression, TypeId,
};
use crate::source::Span;
use crate::text::{decimal, push_decimal, push_str, string_from_chars};

use super::ast::{Type, lemma_deep_equal_reflexive};
use super::shape::{
    Shape, lemma_deep_equal_shape, lemma_shape_representable, lemma_shapes, shape,
    shape_representable, shapes,
};
use super::types::{
    ensure_memory_representable, is_bool_type, is_unrepresentable_diagnostic, predefined,
    predefined_type,
};

verus! {

broadcast use vstd::std_specs::hash::group_hash_axioms;

/// A type alias: its name and the type it stands for.
pub struct AliasDefinition {
    pub binding: TypeBinding,
    pub value: Node<TypeExpression>,
}

/// A generic type alias: its type parameters and the type it stands for.
pub struct GenericAliasDefinition {
    pub parameters: Vec<TypeBinding>,
    pub value: Node<TypeExpression>,
}

/// The type declarations that expansion reads, by type identity.
pub struct TypeDefinitions {
    pub aliases: HashMap<u32, AliasDefinition>,
    pub generic_aliases: HashMap<u32, GenericAliasDefinition>,
    pub external_types: HashMap<u32, TypeBinding>,
}

/// What expansion keeps between uses: the aliases already expanded, and the aliases whose
/// expansion is under way.
pub struct Expansions {
    pub expanded: HashMap<u32, Type>,
    pub expanding: HashSet<u32>,
}

/// Why a type does not expand.
pub enum Fault {
    /// A generic type written without its arguments.
    NeedsArguments(Span),
    /// An alias reached again while it is being expanded.
    RecursiveAlias(Span),
    /// Arguments given to a type that takes none.
    NotGeneric(Span),
    /// A number of arguments other than the expected one.
    Arity(Span, nat, nat),
    /// A generic alias applied again while it is being expanded.
    RecursiveGeneric(Span),
    /// An element type without a memory representation given to `Cursor`, `Region` or `Packed`.
    Unrepresentable(Shape, Span),
    /// An identity that names no type; name resolution leaves none.
    Undefined(Span),
}

/// The identities of all aliases, generic or not.
pub open spec fn alias_ids(defs: TypeDefinitions) -> Set<u32> {
    defs.aliases@.dom().union(defs.generic_aliases@.dom())
}

/// How many aliases are not being expanded.
pub open spec fn unexpanded(defs: TypeDefinitions, expanding: Set<u32>) -> nat {
    alias_ids(defs).difference(expanding).len()
}

/// The shapes the expanded aliases have.
pub open spec fn memo_shapes(memo: Map<u32, Type>) -> Map<u32, Shape> {
    memo.map_values(|t: Type| shape(t))
}

/// Substitutions by their shapes.
pub open spec fn substitution_shapes(substitutions: Seq<(TypeId, Type)>) -> Seq<(u32, Shape)> {
    substitutions.map_values(|pair: (TypeId, Type)| (pair.0.0, shape(pair.1)))
}

/// The type a type parameter stands for: its last substitution.
pub open spec fn lookup(substitutions: Seq<(u32, Shape)>, id: u32) -> Option<Shape>
    decreases substitutions.len(),
{
    if substitutions.len() == 0 {
        None
    } else if substitutions.last().0 == id {
        Some(substitutions.last().1)
    } else {
        lookup(substitutions.drop_last(), id)
    }
}

/// The shape of a predefined type.
pub open spec fn predefined_shape(id: u32) -> Option<Shape> {
    if id == BOOL_TYPE {
        Some(Shape::Sum(seq![Shape::Leaf(Type::Unit), Shape::Leaf(Type::Unit)]))
    } else {
        match predefined(TypeId(id)) {
            Some(t) => Some(Shape::Leaf(t)),
            None => None,
        }
    }
}

/// The substitutions of a generic alias's parameters by its arguments.
pub open spec fn parameter_substitutions(parameters: Seq<TypeBinding>, arguments: Seq<Shape>) -> Seq<(u32, Shape)> {
    Seq::new(parameters.len(), |i: int| (parameters[i].id.0, arguments[i]))
}

/// `id` is `Cursor`, `Region` or `Packed`.
pub open spec fn is_builtin_generic(id: u32) -> bool {
    id == CURSOR_TYPE || id == REGION_TYPE || id == PACKED_TYPE
}

/// Expanding `e` under `substitutions`, with the aliases in `memo` already expanded and those in
/// `expanding` under way, gives what `memo` and `expanding` become and the type or the first
/// fault, in the order the type is written.
pub open spec fn expansion(
    defs: TypeDefinitions,
    memo: Map<u32, Shape>,
    expanding: Set<u32>,
    substitutions: Seq<(u32, Shape)>,
    e: Node<TypeExpression>,
) -> (Map<u32, Shape>, Set<u32>, Result<Shape, Fault>)
    decreases unexpanded(defs, expanding), e, 0nat,
{
    match e.kind {
        TypeExpression::Named(reference) => {
            let id = reference.id.0;
            let span = reference.name.span;
            if lookup(substitutions, id) is Some {
                (memo, expanding, Ok(lookup(substitutions, id)->0))
            } else if predefined_shape(id) is Some {
                (memo, expanding, Ok(predefined_shape(id)->0))
            } else if defs.external_types@.contains_key(id) {
                (memo, expanding, Ok(Shape::External(reference.id, defs.external_types@[id].name.text@)))
            } else if memo.contains_key(id) {
                (memo, expanding, Ok(memo[id]))
            } else if is_builtin_generic(id) || defs.generic_aliases@.contains_key(id) {
                (memo, expanding, Err(Fault::NeedsArguments(span)))
            } else if expanding.contains(id) {
                (memo, expanding, Err(Fault::RecursiveAlias(span)))
            } else if !defs.aliases@.contains_key(id) {
                (memo, expanding, Err(Fault::Undefined(span)))
            } else {
                proof {
                    lemma_unexpanded_decreases(defs, expanding, id);
                }
                let inner = expansion(
                    defs,
                    memo,
                    expanding.insert(id),
                    substitutions,
                    defs.aliases@[id].value,
                );
                match inner.2 {
                    Ok(s) => (inner.0.insert(id, s), inner.1.remove(id), Ok(s)),
                    Err(f) => (inner.0, inner.1, Err(f)),
                }
            }
        },
        TypeExpression::Application { constructor, arguments } => {
            let listed = expansions(defs, memo, expanding, substitutions, arguments@, 0);
            let id = constructor.id.0;
            let span = constructor.name.span;
            match listed.2 {
                Err(f) => (listed.0, listed.1, Err(f)),
                Ok(values) => {
                    let arity = values.len();
                    if is_builtin_generic(id) {
                        if arity != 1 {
                            (listed.0, listed.1, Err(Fault::Arity(span, 1, arity)))
                        } else if !shape_representable(values[0]) {
                            (listed.0, listed.1, Err(Fault::Unrepresentable(values[0], span)))
                        } else if id == CURSOR_TYPE {
                            (listed.0, listed.1, Ok(Shape::Cursor(Box::new(values[0]))))
                        } else if id == REGION_TYPE {
                            (listed.0, listed.1, Ok(Shape::Region(Box::new(values[0]))))
                        } else {
                            (listed.0, listed.1, Ok(Shape::Packed(Box::new(values[0]))))
                        }
                    } else if defs.generic_aliases@.contains_key(id) {
                        let definition = defs.generic_aliases@[id];
                        let expected = definition.parameters@.len();
                        if arity != expected {
                            (listed.0, listed.1, Err(Fault::Arity(span, expected, arity)))
                        } else if expanding.contains(id) {
                            (listed.0, listed.1, Err(Fault::RecursiveGeneric(span)))
                        } else {
                            proof {
                                lemma_unexpanded_decreases(defs, expanding, id);
                            }
                            let inner = expansion(
                                defs,
                                listed.0,
                                expanding.insert(id),
                                parameter_substitutions(definition.parameters@, values),
                                definition.value,
                            );
                            match inner.2 {
                                Ok(s) => (inner.0, inner.1.remove(id), Ok(s)),
                                Err(f) => (inner.0, inner.1, Err(f)),
                            }
                        }
                    } else {
                        (listed.0, listed.1, Err(Fault::NotGeneric(span)))
                    }
                },
            }
        },
        TypeExpression::Unit => (memo, expanding, Ok(Shape::Leaf(Type::Unit))),
        TypeExpression::Parenthesized(inner) => expansion(defs, memo, expanding, substitutions, *inner),
        TypeExpression::Product(elements) => {
            let listed = expansions(defs, memo, expanding, substitutions, elements@, 0);
            match listed.2 {
                Ok(values) => (listed.0, listed.1, Ok(Shape::Product(values))),
                Err(f) => (listed.0, listed.1, Err(f)),
            }
        },
        TypeExpression::Sum(members) => {
            let listed = expansions(defs, memo, expanding, substitutions, members@, 0);
            match listed.2 {
                Ok(values) => (listed.0, listed.1, Ok(Shape::Sum(values))),
                Err(f) => (listed.0, listed.1, Err(f)),
            }
        },
        TypeExpression::Function { parameter, result } => {
            let first = expansion(defs, memo, expanding, substitutions, *parameter);
            match first.2 {
                Err(f) => (first.0, first.1, Err(f)),
                Ok(p) => {
                    let second = expansion(defs, first.0, expanding, substitutions, *result);
                    match second.2 {
                        Err(f) => (second.0, second.1, Err(f)),
                        Ok(r) => (second.0, second.1, Ok(Shape::Function(Box::new(p), Box::new(r)))),
                    }
                },
            }
        },
    }
}

/// Expanding `types[from..]` in order, stopping at the first fault.
pub open spec fn expansions(
    defs: TypeDefinitions,
    memo: Map<u32, Shape>,
    expanding: Set<u32>,
    substitutions: Seq<(u32, Shape)>,
    types: Seq<Node<TypeExpression>>,
    from: nat,
) -> (Map<u32, Shape>, Set<u32>, Result<Seq<Shape>, Fault>)
    decreases unexpanded(defs, expanding), types, types.len() - from,
{
    if from >= types.len() {
        (memo, expanding, Ok(Seq::empty()))
    } else {
        let first = expansion(defs, memo, expanding, substitutions, types[from as int]);
        match first.2 {
            Err(f) => (first.0, first.1, Err(f)),
            Ok(s) => {
                let rest = expansions(defs, first.0, expanding, substitutions, types, from + 1);
                match rest.2 {
                    Err(f) => (rest.0, rest.1, Err(f)),
                    Ok(values) => (rest.0, rest.1, Ok(seq![s] + values)),
                }
            },
        }
    }
}

/// Taking up an alias that is not under way leaves fewer aliases to take up.
pub proof fn lemma_unexpanded_decreases(defs: TypeDefinitions, expanding: Set<u32>, id: u32)
    requires
        alias_ids(defs).contains(id) || defs.aliases@.contains_key(id)
            || defs.generic_aliases@.contains_key(id),
        !expanding.contains(id),
    ensures
        unexpanded(defs, expanding.insert(id)) < unexpanded(defs, expanding),
{
    let ids = alias_ids(defs);
    assert(ids.finite()) by {
        assert(defs.aliases@.dom().finite());
        assert(defs.generic_aliases@.dom().finite());
    }
    assert(ids.difference(expanding.insert(id)) =~= ids.difference(expanding).remove(id));
    assert(ids.difference(expanding).contains(id));
}

/// `found` says `message`, pointing at `span` with `label`.
pub open spec fn labelled(found: Diagnostic, message: Seq<char>, span: Span, label: Seq<char>) -> bool {
    &&& found.message@ == message
    &&& found.primary matches Some(l)
    &&& l.span == span
    &&& l.message@ == label
}

/// The diagnostic that describes `fault`.
pub open spec fn describes_fault(fault: Fault, found: Diagnostic) -> bool {
    &&& found.notes@.len() == 0
    &&& match fault {
        Fault::NeedsArguments(span) => labelled(
            found,
            "generic type requires arguments"@,
            span,
            "supply the declared type arguments"@,
        ),
        Fault::RecursiveAlias(span) => labelled(
            found,
            "recursive type alias"@,
            span,
            "this reference forms an alias cycle"@,
        ),
        Fault::NotGeneric(span) => labelled(
            found,
            "type does not accept arguments"@,
            span,
            "remove these type arguments"@,
        ),
        Fault::Arity(span, expected, count) => labelled(
            found,
            "generic type argument arity mismatch"@,
            span,
            "expected "@ + decimal(expected) + " arguments but found "@ + decimal(count),
        ),
        Fault::RecursiveGeneric(span) => labelled(
            found,
            "recursive generic type alias"@,
            span,
            "this application forms an alias cycle"@,
        ),
        Fault::Unrepresentable(element, span) => exists|t: Type|
            shape(t) == element && #[trigger] is_unrepresentable_diagnostic(t, span, found),
        Fault::Undefined(_) => false,
    }
}


/// What expanding `e` under `substitutions` gives, with the aliases `memo` has expanded and
/// those `expanding` has under way.
pub open spec fn expansion_of(
    defs: TypeDefinitions,
    memo: Map<u32, Type>,
    expanding: Set<u32>,
    substitutions: Seq<(TypeId, Type)>,
    e: Node<TypeExpression>,
) -> (Map<u32, Shape>, Set<u32>, Result<Shape, Fault>) {
    expansion(defs, memo_shapes(memo), expanding, substitution_shapes(substitutions), e)
}

/// An expansion that succeeds ends with the same aliases under way as it began.
pub proof fn lemma_success_keeps_expanding(
    defs: TypeDefinitions,
    memo: Map<u32, Shape>,
    expanding: Set<u32>,
    substitutions: Seq<(u32, Shape)>,
    e: Node<TypeExpression>,
)
    ensures
        expansion(defs, memo, expanding, substitutions, e).2 is Ok ==> expansion(
            defs,
            memo,
            expanding,
            substitutions,
            e,
        ).1 == expanding,
    decreases unexpanded(defs, expanding), e, 0nat,
{
    match e.kind {
        TypeExpression::Named(reference) => {
            let id = reference.id.0;
            if lookup(substitutions, id) is None && predefined_shape(id) is None
                && !defs.external_types@.contains_key(id) && !memo.contains_key(id)
                && !(is_builtin_generic(id) || defs.generic_aliases@.contains_key(id))
                && !expanding.contains(id) && defs.aliases@.contains_key(id) {
                lemma_unexpanded_decreases(defs, expanding, id);
                lemma_success_keeps_expanding(
                    defs,
                    memo,
                    expanding.insert(id),
                    substitutions,
                    defs.aliases@[id].value,
                );
                assert(expanding.insert(id).remove(id) =~= expanding);
            }
        },
        TypeExpression::Application { constructor, arguments } => {
            lemma_success_keeps_expanding_list(defs, memo, expanding, substitutions, arguments@, 0);
            let listed = expansions(defs, memo, expanding, substitutions, arguments@, 0);
            let id = constructor.id.0;
            if listed.2 is Ok && !is_builtin_generic(id) && defs.generic_aliases@.contains_key(id)
                && !expanding.contains(id) {
                let definition = defs.generic_aliases@[id];
                if listed.2->Ok_0.len() == definition.parameters@.len() {
                    lemma_unexpanded_decreases(defs, expanding, id);
                    lemma_success_keeps_expanding(
                        defs,
                        listed.0,
                        expanding.insert(id),
                        parameter_substitutions(definition.parameters@, listed.2->Ok_0),
                        definition.value,
                    );
                    assert(expanding.insert(id).remove(id) =~= expanding);
                }
            }
        },
        TypeExpression::Unit => {},
        TypeExpression::Parenthesized(inner) => {
            lemma_success_keeps_expanding(defs, memo, expanding, substitutions, *inner);
        },
        TypeExpression::Product(elements) => {
            lemma_success_keeps_expanding_list(defs, memo, expanding, substitutions, elements@, 0);
        },
        TypeExpression::Sum(members) => {
            lemma_success_keeps_expanding_list(defs, memo, expanding, substitutions, members@, 0);
        },
        TypeExpression::Function { parameter, result } => {
            lemma_success_keeps_expanding(defs, memo, expanding, substitutions, *parameter);
            let first = expansion(defs, memo, expanding, substitutions, *parameter);
            lemma_success_keeps_expanding(defs, first.0, expanding, substitutions, *result);
        },
    }
}

pub proof fn lemma_success_keeps_expanding_list(
    defs: TypeDefinitions,
    memo: Map<u32, Shape>,
    expanding: Set<u32>,
    substitutions: Seq<(u32, Shape)>,
    types: Seq<Node<TypeExpression>>,
    from: nat,
)
    ensures
        expansions(defs, memo, expanding, substitutions, types, from).2 is Ok ==> expansions(
            defs,
            memo,
            expanding,
            substitutions,
            types,
            from,
        ).1 == expanding,
    decreases unexpanded(defs, expanding), types, types.len() - from,
{
    if from < types.len() {
        lemma_success_keeps_expanding(defs, memo, expanding, substitutions, types[from as int]);
        let first = expansion(defs, memo, expanding, substitutions, types[from as int]);
        lemma_success_keeps_expanding_list(defs, first.0, expanding, substitutions, types, from + 1);
    }
}


proof fn lemma_lookup_prefix(substitutions: Seq<(u32, Shape)>, id: u32, k: int)
    requires
        0 <= k <= substitutions.len(),
        forall|j: int| k <= j < substitutions.len() ==> (#[trigger] substitutions[j]).0 != id,
    ensures
        lookup(substitutions, id) == lookup(substitutions.take(k), id),
    decreases substitutions.len() - k,
{
    if k < substitutions.len() {
        assert(substitutions.drop_last().take(k) =~= substitutions.take(k));
        lemma_lookup_prefix(substitutions.drop_last(), id, k);
    } else {
        assert(substitutions.take(k) =~= substitutions);
    }
}

/// The type that the last substitution of `id` gives, copied.
fn find_substitution(substitutions: &Vec<(TypeId, Type)>, id: u32) -> (found: Option<Type>)
    ensures
        match found {
            Some(t) => lookup(substitution_shapes(substitutions@), id) == Some(shape(t)),
            None => lookup(substitution_shapes(substitutions@), id) is None,
        },
{
    let ghost all = substitution_shapes(substitutions@);
    let mut k = substitutions.len();
    while k > 0
        invariant
            k <= substitutions@.len(),
            all == substitution_shapes(substitutions@),
            all.len() == substitutions@.len(),
            forall|j: int| k <= j < all.len() ==> (#[trigger] all[j]).0 != id,
        decreases k,
    {
        k = k - 1;
        if substitutions[k].0.0 == id {
            let copy = substitutions[k].1.clone();
            proof {
                lemma_deep_equal_shape(copy, substitutions@[k as int].1);
                lemma_lookup_prefix(all, id, k + 1);
                assert(all.take(k + 1).last() == all[k as int]);
            }
            return Some(copy);
        }
    }
    proof {
        lemma_lookup_prefix(all, id, 0);
    }
    None
}

fn labelled_error(message: &str, span: Span, label: &str) -> (found: Diagnostic)
    ensures
        labelled(found, message@, span, label@),
        found.notes@.len() == 0,
{
    Diagnostic::error(message).with_primary(span, label)
}

fn arity_error(span: Span, expected: usize, count: usize) -> (found: Diagnostic)
    ensures
        describes_fault(Fault::Arity(span, expected as nat, count as nat), found),
{
    let mut text: Vec<char> = Vec::new();
    push_str(&mut text, "expected ");
    push_decimal(&mut text, expected);
    push_str(&mut text, " arguments but found ");
    push_decimal(&mut text, count);
    let label = string_from_chars(&text);
    labelled_error("generic type argument arity mismatch", span, label.as_str())
}

proof fn lemma_bool_shape(t: Type)
    requires
        is_bool_type(t),
    ensures
        shape(t) == Shape::Sum(seq![Shape::Leaf(Type::Unit), Shape::Leaf(Type::Unit)]),
{
    match t {
        Type::Sum(members) => {
            lemma_shapes(members@, 2);
            assert(shapes(members@, 2) =~= seq![Shape::Leaf(Type::Unit), Shape::Leaf(Type::Unit)]);
        },
        _ => {},
    }
}

/// Expands the type `e` under `substitutions`: replaces type parameters, predefined and external
/// names and aliases by the types they stand for, applies generic aliases and `Cursor`, `Region`
/// and `Packed` to their arguments, and remembers each alias it expands.
pub fn expand(
    defs: &TypeDefinitions,
    state: &mut Expansions,
    substitutions: &Vec<(TypeId, Type)>,
    e: &Node<TypeExpression>,
) -> (result: Result<Type, Diagnostic>)
    requires
        !(expansion_of(*defs, old(state).expanded@, old(state).expanding@, substitutions@, *e).2 matches Err(Fault::Undefined(_))),
    ensures
        ({
            let out = expansion_of(*defs, old(state).expanded@, old(state).expanding@, substitutions@, *e);
            &&& memo_shapes(final(state).expanded@) == out.0
            &&& final(state).expanding@ == out.1
            &&& match result {
                Ok(t) => out.2 == Ok::<Shape, Fault>(shape(t)),
                Err(found) => out.2 matches Err(fault) && describes_fault(fault, found),
            }
        }),
    decreases unexpanded(*defs, old(state).expanding@), *e, 0nat,
{
    let ghost memo = memo_shapes(state.expanded@);
    let ghost expanding = state.expanding@;
    let ghost subs = substitution_shapes(substitutions@);
    match &e.kind {
        TypeExpression::Named(reference) => {
            let id = reference.id.0;
            let span = reference.name.span;
            match find_substitution(substitutions, id) {
                Some(t) => {
                    return Ok(t);
                },
                None => {},
            }
            match predefined_type(reference.id) {
                Some(t) => {
                    proof {
                        if id == BOOL_TYPE {
                            lemma_bool_shape(t);
                        }
                    }
                    return Ok(t);
                },
                None => {},
            }
            proof {
                assert(predefined_shape(id) is None);
            }
            match defs.external_types.get(&id) {
                Some(binding) => {
                    return Ok(Type::External { id: reference.id, name: binding.name.text.clone() });
                },
                None => {},
            }
            match state.expanded.get(&id) {
                Some(t) => {
                    let copy = t.clone();
                    proof {
                        lemma_deep_equal_shape(copy, *t);
                    }
                    return Ok(copy);
                },
                None => {},
            }
            if id == CURSOR_TYPE || id == REGION_TYPE || id == PACKED_TYPE
                || defs.generic_aliases.contains_key(&id) {
                return Err(
                    labelled_error(
                        "generic type requires arguments",
                        span,
                        "supply the declared type arguments",
                    ),
                );
            }
            if state.expanding.contains(&id) {
                return Err(
                    labelled_error(
                        "recursive type alias",
                        span,
                        "this reference forms an alias cycle",
                    ),
                );
            }
            match defs.aliases.get(&id) {
                Some(definition) => {
                    proof {
                        lemma_unexpanded_decreases(*defs, expanding, id);
                    }
                    state.expanding.insert(id);
                    match expand(defs, state, substitutions, &definition.value) {
                        Ok(t) => {
                            let ghost before = state.expanded@;
                            let copy = t.clone();
                            proof {
                                lemma_deep_equal_shape(copy, t);
                            }
                            state.expanded.insert(id, copy);
                            state.expanding.remove(&id);
                            proof {
                                assert(memo_shapes(state.expanded@) =~= memo_shapes(before).insert(id, shape(t)));
                            }
                            Ok(t)
                        },
                        Err(found) => Err(found),
                    }
                },
                None => {
                    proof {
                        assert(false);
                    }
                    Err(labelled_error("recursive type alias", span, "this reference forms an alias cycle"))
                },
            }
        },
        TypeExpression::Application { constructor, arguments } => {
            let id = constructor.id.0;
            let span = constructor.name.span;
            let mut values = match expand_list(defs, state, substitutions, arguments) {
                Ok(values) => values,
                Err(found) => {
                    return Err(found);
                },
            };
            proof {
                lemma_success_keeps_expanding_list(*defs, memo, expanding, subs, arguments@, 0);
                lemma_shapes(values@, values@.len());
            }
            let arity = values.len();
            if id == CURSOR_TYPE || id == REGION_TYPE || id == PACKED_TYPE {
                if arity != 1 {
                    return Err(arity_error(span, 1, arity));
                }
                let ghost all_values = values@;
                let element = values.remove(0);
                proof {
                    lemma_shape_representable(element);
                }
                match ensure_memory_representable(&element, span) {
                    Err(found) => {
                        proof {
                            assert(element == all_values[0]);
                            assert(shape(element) == shapes(all_values, all_values.len())[0]);
                            assert(!shape_representable(shape(element)));
                            assert(is_unrepresentable_diagnostic(element, span, found));
                            lemma_unrepresentable_described(element, span, found);
                        }
                        return Err(found);
                    },
                    Ok(()) => {},
                }
                if id == CURSOR_TYPE {
                    Ok(Type::Cursor(Box::new(element)))
                } else if id == REGION_TYPE {
                    Ok(Type::Region(Box::new(element)))
                } else {
                    Ok(Type::Packed(Box::new(element)))
                }
            } else {
                match defs.generic_aliases.get(&id) {
                    Some(definition) => {
                        let expected = definition.parameters.len();
                        if arity != expected {
                            return Err(arity_error(span, expected, arity));
                        }
                        if state.expanding.contains(&id) {
                            return Err(
                                labelled_error(
                                    "recursive generic type alias",
                                    span,
                                    "this application forms an alias cycle",
                                ),
                            );
                        }
                        let ghost shapes_of_values = shapes(values@, values@.len());
                        let mut bound: Vec<(TypeId, Type)> = Vec::new();
                        let mut rest = values;
                        let ghost all = rest@;
                        let mut k: usize = 0;
                        while k < arity
                            invariant
                                k <= arity,
                                arity == all.len(),
                                arity == definition.parameters@.len(),
                                rest@ == all.skip(k as int),
                                bound@.len() == k,
                                forall|j: int| 0 <= j < k ==> (#[trigger] bound@[j]).0 == definition.parameters@[j].id
                                    && bound@[j].1 == all[j],
                            decreases arity - k,
                        {
                            let t = rest.remove(0);
                            proof {
                                assert(all.skip(k as int)[0] == all[k as int]);
                                assert(rest@ =~= all.skip(k + 1));
                            }
                            bound.push((definition.parameters[k].id, t));
                            k = k + 1;
                        }
                        proof {
                            lemma_shapes(all, all.len());
                            assert(substitution_shapes(bound@) =~= parameter_substitutions(
                                definition.parameters@,
                                shapes_of_values,
                            ));
                            lemma_unexpanded_decreases(*defs, expanding, id);
                        }
                        state.expanding.insert(id);
                        match expand(defs, state, &bound, &definition.value) {
                            Ok(t) => {
                                state.expanding.remove(&id);
                                Ok(t)
                            },
                            Err(found) => Err(found),
                        }
                    },
                    None => Err(
                        labelled_error(
                            "type does not accept arguments",
                            span,
                            "remove these type arguments",
                        ),
                    ),
                }
            }
        },
        TypeExpression::Unit => Ok(Type::Unit),
        TypeExpression::Parenthesized(inner) => expand(defs, state, substitutions, inner),
        TypeExpression::Product(elements) => match expand_list(defs, state, substitutions, elements) {
            Ok(values) => Ok(Type::Product(values)),
            Err(found) => Err(found),
        },
        TypeExpression::Sum(members) => match expand_list(defs, state, substitutions, members) {
            Ok(values) => Ok(Type::Sum(values)),
            Err(found) => Err(found),
        },
        TypeExpression::Function { parameter, result } => {
            let p = match expand(defs, state, substitutions, parameter) {
                Ok(t) => t,
                Err(found) => {
                    return Err(found);
                },
            };
            proof {
                lemma_success_keeps_expanding(*defs, memo, expanding, subs, **parameter);
            }
            let r = match expand(defs, state, substitutions, result) {
                Ok(t) => t,
                Err(found) => {
                    return Err(found);
                },
            };
            Ok(Type::Function { parameter: Box::new(p), result: Box::new(r) })
        },
    }
}

/// Expands each of `types` in order, stopping at the first that does not expand.
pub fn expand_list(
    defs: &TypeDefinitions,
    state: &mut Expansions,
    substitutions: &Vec<(TypeId, Type)>,
    types: &Vec<Node<TypeExpression>>,
) -> (result: Result<Vec<Type>, Diagnostic>)
    requires
        !(expansions(
            *defs,
            memo_shapes(old(state).expanded@),
            old(state).expanding@,
            substitution_shapes(substitutions@),
            types@,
            0,
        ).2 matches Err(Fault::Undefined(_))),
    ensures
        ({
            let out = expansions(
                *defs,
                memo_shapes(old(state).expanded@),
                old(state).expanding@,
                substitution_shapes(substitutions@),
                types@,
                0,
            );
            &&& memo_shapes(final(state).expanded@) == out.0
            &&& final(state).expanding@ == out.1
            &&& match result {
                Ok(values) => out.2 == Ok::<Seq<Shape>, Fault>(shapes(values@, values@.len())),
                Err(found) => out.2 matches Err(fault) && describes_fault(fault, found),
            }
        }),
    decreases unexpanded(*defs, old(state).expanding@), types@, types@.len() + 1,
{
    let ghost expanding = state.expanding@;
    let ghost subs = substitution_shapes(substitutions@);
    let ghost whole = expansions(*defs, memo_shapes(state.expanded@), expanding, subs, types@, 0);
    let mut values: Vec<Type> = Vec::new();
    let mut k: usize = 0;
    while k < types.len()
        invariant
            k <= types@.len(),
            state.expanding@ == expanding,
            subs == substitution_shapes(substitutions@),
            whole == expansions(*defs, memo_shapes(old(state).expanded@), old(state).expanding@, subs, types@, 0),
            expanding == old(state).expanding@,
            !(whole.2 matches Err(Fault::Undefined(_))),
            values@.len() == k,
            ({
                let here = expansions(*defs, memo_shapes(state.expanded@), expanding, subs, types@, k as nat);
                &&& whole.0 == here.0
                &&& whole.1 == here.1
                &&& whole.2 == match here.2 {
                    Ok(rest) => Ok::<Seq<Shape>, Fault>(shapes(values@, k as nat) + rest),
                    Err(f) => Err(f),
                }
            }),
        decreases types@.len() - k,
    {
        let ghost memo = memo_shapes(state.expanded@);
        let ghost first = expansion(*defs, memo, expanding, subs, types@[k as int]);
        proof {
            if first.2 matches Err(Fault::Undefined(_)) {
                assert(expansions(*defs, memo, expanding, subs, types@, k as nat).2 matches Err(Fault::Undefined(_)));
            }
        }
        match expand(defs, state, substitutions, &types[k]) {
            Ok(t) => {
                proof {
                    lemma_success_keeps_expanding(*defs, memo, expanding, subs, types@[k as int]);
                    let rest = expansions(*defs, first.0, expanding, subs, types@, (k + 1) as nat);
                    match rest.2 {
                        Ok(tail) => {
                            assert(shapes(values@.push(t), (k + 1) as nat) =~= shapes(values@, k as nat).push(shape(t))) by {
                                lemma_shapes(values@, k as nat);
                                lemma_shapes(values@.push(t), (k + 1) as nat);
                                assert(values@.push(t).take(k as int) =~= values@);
                            }
                            assert(shapes(values@, k as nat) + (seq![shape(t)] + tail) =~= shapes(values@, k as nat).push(shape(t)) + tail);
                        },
                        Err(_) => {},
                    }
                }
                values.push(t);
                k = k + 1;
            },
            Err(found) => {
                return Err(found);
            },
        }
    }
    proof {
        assert(shapes(values@, k as nat) + Seq::<Shape>::empty() =~= shapes(values@, k as nat));
    }
    Ok(values)
}

proof fn lemma_unrepresentable_described(t: Type, span: Span, found: Diagnostic)
    requires
        is_unrepresentable_diagnostic(t, span, found),
    ensures
        describes_fault(Fault::Unrepresentable(shape(t), span), found),
{
    assert(found.notes@.len() == 0);
    assert(exists|u: Type| shape(u) == shape(t) && #[trigger] is_unrepresentable_diagnostic(u, span, found));
    let f = Fault::Unrepresentable(shape(t), span);
    assert(f matches Fault::Unrepresentable(a, b) && a == shape(t) && b == span);
}

} // verus!
