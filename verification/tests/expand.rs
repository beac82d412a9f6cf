use std::collections::{HashMap, HashSet};

use lib::ast::{Name, Node};
use lib::check::ast::Type;
use lib::check::expand::{expand, AliasDefinition, Expansions, GenericAliasDefinition, TypeDefinitions};
use lib::resolve::{TypeBinding, TypeExpression, TypeId, TypeReference};
use lib::source::{FileId, Span};

fn at(start: usize) -> Span {
    Span::new(FileId::new(0), start, start + 1)
}

fn name(text: &str, start: usize) -> Name {
    Name { text: text.to_string(), span: at(start) }
}

fn node(kind: TypeExpression) -> Node<TypeExpression> {
    Node { kind, span: at(0) }
}

fn named(id: u32, start: usize) -> Node<TypeExpression> {
    node(TypeExpression::Named(TypeReference { id: TypeId(id), name: name("T", start) }))
}

fn applied(id: u32, start: usize, arguments: Vec<Node<TypeExpression>>) -> Node<TypeExpression> {
    node(TypeExpression::Application {
        constructor: TypeReference { id: TypeId(id), name: name("G", start) },
        arguments,
    })
}

fn alias(id: u32, value: Node<TypeExpression>) -> (u32, AliasDefinition) {
    (id, AliasDefinition { binding: TypeBinding { id: TypeId(id), name: name("A", 0) }, value })
}

fn definitions(aliases: Vec<(u32, AliasDefinition)>) -> TypeDefinitions {
    let mut generic_aliases = HashMap::new();
    generic_aliases.insert(
        40,
        GenericAliasDefinition {
            parameters: vec![TypeBinding { id: TypeId(50), name: name("P", 0) }],
            value: node(TypeExpression::Product(vec![named(50, 1), named(50, 2)])),
        },
    );
    let mut external_types = HashMap::new();
    external_types.insert(60, TypeBinding { id: TypeId(60), name: name("Handle", 0) });
    TypeDefinitions { aliases: aliases.into_iter().collect(), generic_aliases, external_types }
}

fn fresh() -> Expansions {
    Expansions { expanded: HashMap::new(), expanding: HashSet::new() }
}

#[test]
fn aliases_expand_to_what_they_stand_for_and_are_remembered() {
    let defs = definitions(vec![
        alias(30, node(TypeExpression::Product(vec![named(3, 1), named(31, 2)]))),
        alias(31, named(11, 3)),
    ]);
    let mut state = fresh();
    let ty = expand(&defs, &mut state, &Vec::new(), &named(30, 0)).unwrap();
    assert_eq!(ty, Type::Product(vec![Type::Int32, Type::Sum(vec![Type::Unit, Type::Unit])]));
    assert_eq!(state.expanded.get(&31), Some(&Type::Sum(vec![Type::Unit, Type::Unit])));
    assert!(state.expanded.contains_key(&30));
    assert!(state.expanding.is_empty());
}

#[test]
fn an_alias_cycle_is_refused() {
    let defs = definitions(vec![alias(30, named(31, 1)), alias(31, named(30, 2))]);
    let error = expand(&defs, &mut fresh(), &Vec::new(), &named(30, 0)).unwrap_err();
    assert_eq!(error.message, "recursive type alias");
    assert_eq!(error.primary.unwrap().span, at(2));
}

#[test]
fn generic_aliases_substitute_their_arguments() {
    let defs = definitions(vec![]);
    let ty = expand(&defs, &mut fresh(), &Vec::new(), &applied(40, 0, vec![named(1, 1)])).unwrap();
    assert_eq!(ty, Type::Product(vec![Type::Int8, Type::Int8]));
    let error = expand(&defs, &mut fresh(), &Vec::new(), &applied(40, 0, vec![named(1, 1), named(2, 2)]))
        .unwrap_err();
    assert_eq!(error.message, "generic type argument arity mismatch");
    assert_eq!(error.primary.unwrap().message, "expected 1 arguments but found 2");
}

#[test]
fn memory_types_need_representable_elements() {
    let defs = definitions(vec![]);
    let ty = expand(&defs, &mut fresh(), &Vec::new(), &applied(16, 0, vec![named(1, 1)])).unwrap();
    assert_eq!(ty, Type::Cursor(Box::new(Type::Int8)));
    let error = expand(&defs, &mut fresh(), &Vec::new(), &applied(18, 0, vec![named(12, 1)])).unwrap_err();
    assert_eq!(error.message, "memory element type is not representable");
    let error = expand(&defs, &mut fresh(), &Vec::new(), &named(17, 4)).unwrap_err();
    assert_eq!(error.message, "generic type requires arguments");
    let error = expand(&defs, &mut fresh(), &Vec::new(), &applied(3, 5, vec![named(1, 1)])).unwrap_err();
    assert_eq!(error.message, "type does not accept arguments");
}

#[test]
fn substitutions_and_external_types_come_first() {
    let defs = definitions(vec![]);
    let substitutions = vec![(TypeId(70), Type::UInt8)];
    let ty = expand(
        &defs,
        &mut fresh(),
        &substitutions,
        &node(TypeExpression::Function { parameter: Box::new(named(70, 0)), result: Box::new(named(60, 1)) }),
    )
    .unwrap();
    assert_eq!(
        ty,
        Type::Function {
            parameter: Box::new(Type::UInt8),
            result: Box::new(Type::External { id: TypeId(60), name: "Handle".to_string() }),
        }
    );
}
