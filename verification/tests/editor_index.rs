use std::collections::{HashMap, HashSet};

use lib::ast::{Name, Node};
use lib::check::ast::{
    Binding, Expression, ExpressionKind, Lambda, LambdaBody, Parameter, Pattern, Program, TopItem,
    Type,
};
use lib::check::types::name_of_type;
use lib::editor::index::Index;
use lib::editor::outline::{first_of_each_name_sorted, sort_by_span, symbol_for};
use lib::editor::{Occurrence, OccurrenceRole, Symbol, SymbolId, SymbolKind};
use lib::resolve::{
    ExternalOperationId, LambdaId, TypeBinding, TypeId, ValueBinding, ValueId, ValueOwner,
    ValueReference,
};
use lib::source::{FileId, Span};

fn at(file: u32, start: usize, end: usize) -> Span {
    Span::new(FileId::new(file), start, end)
}

fn name(text: &str, span: Span) -> Name {
    Name { text: text.to_string(), span }
}

fn value_binding(id: u32, text: &str, span: Span) -> ValueBinding {
    ValueBinding { id: ValueId(id), name: name(text, span), owner: ValueOwner::TopLevel }
}

fn function_type() -> Type {
    Type::Function { parameter: Box::new(Type::Int32), result: Box::new(Type::Int32) }
}

/// `f = \x -> x`, an external operation `put : Int32 -> Unit`, and `Wide = Int64`.
fn program() -> Program {
    let identity = Expression {
        kind: ExpressionKind::Lambda(Lambda {
            id: LambdaId(0),
            self_binding: None,
            captures: vec![],
            parameters: vec![Parameter {
                binding: value_binding(2, "x", at(0, 5, 6)),
                ty: Type::Int32,
                span: at(0, 5, 6),
            }],
            body: LambdaBody {
                items: vec![],
                result: Box::new(Expression {
                    kind: ExpressionKind::Reference(ValueReference {
                        id: ValueId(2),
                        name: name("x", at(0, 10, 11)),
                    }),
                    ty: Type::Int32,
                    span: at(0, 10, 11),
                }),
                span: at(0, 10, 11),
            },
        }),
        ty: function_type(),
        span: at(0, 4, 11),
    };
    Program {
        items: vec![
            Node {
                kind: TopItem::Binding(Box::new(Binding {
                    pattern: Pattern::Binding {
                        binding: value_binding(1, "f", at(0, 0, 1)),
                        ty: function_type(),
                    },
                    annotation: None,
                    value: identity,
                    span: at(0, 0, 11),
                })),
                span: at(0, 0, 11),
            },
            Node {
                kind: TopItem::ExternalOperation {
                    id: ExternalOperationId(0),
                    binding: value_binding(3, "put", at(0, 20, 23)),
                    lambda_id: LambdaId(1),
                    parameter: Type::Int32,
                    parameter_alias: None,
                    parameter_aliases: vec![],
                    result: Type::Unit,
                    result_alias: None,
                },
                span: at(0, 15, 30),
            },
            Node {
                kind: TopItem::TypeAlias {
                    binding: TypeBinding { id: TypeId(20), name: name("Wide", at(0, 35, 39)) },
                    ty: Type::Int64,
                    target_alias: None,
                    element_aliases: vec![],
                },
                span: at(0, 30, 45),
            },
        ],
        span: at(0, 0, 45),
    }
}

fn indexed(program: &Program) -> Index {
    let mut aliases = HashMap::new();
    aliases.insert(7, 5);
    aliases.insert(5, 2);
    let mut predefined = HashMap::new();
    predefined.insert(3, "Int32".to_string());
    let mut index = Index::new(aliases, predefined);
    index.collect_checked_program(program);
    index
}

#[test]
fn values_and_types_take_their_kind_and_detail_from_the_checked_program() {
    let program = program();
    let index = indexed(&program);
    let function = name_of_type(&function_type());
    assert!(function.contains(" -> "));
    assert_eq!(index.kind(SymbolId::Value(ValueId(1))), SymbolKind::Function);
    assert_eq!(index.detail(SymbolId::Value(ValueId(1)), &program), Some(function));
    assert_eq!(index.kind(SymbolId::Value(ValueId(2))), SymbolKind::Parameter);
    assert_eq!(index.detail(SymbolId::Value(ValueId(2)), &program), Some("Int32".to_string()));
    assert_eq!(index.kind(SymbolId::Value(ValueId(9))), SymbolKind::Value);
    assert_eq!(index.detail(SymbolId::Value(ValueId(9)), &program), None);
    assert_eq!(index.kind(SymbolId::Type(TypeId(20))), SymbolKind::Type);
    assert_eq!(index.detail(SymbolId::Type(TypeId(20)), &program), Some("Int64".to_string()));
    assert_eq!(index.detail(SymbolId::Type(TypeId(3)), &program), Some("Int32".to_string()));
    assert_eq!(
        index.kind(SymbolId::ExternalOperation(ExternalOperationId(0))),
        SymbolKind::Function
    );
    assert_eq!(
        index.detail(SymbolId::ExternalOperation(ExternalOperationId(0)), &program),
        Some("Int32 -> Unit".to_string())
    );
    assert_eq!(index.detail(SymbolId::ExternalOperation(ExternalOperationId(4)), &program), None);
}

#[test]
fn a_value_follows_its_aliases_to_the_end() {
    let program = program();
    let index = indexed(&program);
    assert_eq!(index.canonical_value(7), 2);
    assert_eq!(index.canonical_value(5), 2);
    assert_eq!(index.canonical_value(2), 2);
    assert_eq!(index.canonical_value(40), 40);
    assert_eq!(
        index.canonical_symbol(SymbolId::Value(ValueId(7))),
        SymbolId::Value(ValueId(2))
    );
    assert_eq!(index.canonical_symbol(SymbolId::Type(TypeId(7))), SymbolId::Type(TypeId(7)));
}

fn finished_document(file: Option<FileId>, visible: Option<&HashSet<u32>>) -> lib::editor::SemanticDocument {
    let program = program();
    let mut index = indexed(&program);
    index.add_raw(SymbolId::Value(ValueId(7)), &name("x", at(0, 10, 11)), OccurrenceRole::Reference);
    index.add_raw(SymbolId::Value(ValueId(1)), &name("f", at(0, 0, 1)), OccurrenceRole::Declaration);
    index.add_raw(SymbolId::Value(ValueId(2)), &name("x", at(0, 5, 6)), OccurrenceRole::Declaration);
    index.add_raw(
        SymbolId::ExternalOperation(ExternalOperationId(0)),
        &name("put", at(0, 20, 23)),
        OccurrenceRole::Declaration,
    );
    index.add_raw(SymbolId::Type(TypeId(20)), &name("Wide", at(1, 0, 4)), OccurrenceRole::Declaration);
    index.add_raw(SymbolId::Value(ValueId(30)), &name("_hidden", at(1, 8, 15)), OccurrenceRole::Declaration);
    index.add_top_level(SymbolId::Value(ValueId(1)));
    index.add_top_level(SymbolId::ExternalOperation(ExternalOperationId(0)));
    index.add_top_level(SymbolId::Type(TypeId(20)));
    index.add_top_level(SymbolId::Value(ValueId(30)));
    index.add_top_level(SymbolId::Value(ValueId(99)));
    let predefined = vec![
        Symbol {
            id: SymbolId::Type(TypeId(3)),
            name: "Int32".to_string(),
            kind: SymbolKind::Type,
            detail: Some("Int32".to_string()),
            span: None,
        },
        Symbol {
            id: SymbolId::Value(ValueId(0)),
            name: "f".to_string(),
            kind: SymbolKind::Value,
            detail: None,
            span: None,
        },
    ];
    index.finish(&program, predefined, file, visible)
}

#[test]
fn finishing_sorts_occurrences_and_follows_aliases() {
    let document = finished_document(None, None);
    let occurrences = document.occurrences();
    let spans: Vec<Span> = occurrences.iter().map(|o| o.span).collect();
    assert_eq!(
        spans,
        vec![at(0, 0, 1), at(0, 5, 6), at(0, 10, 11), at(0, 20, 23), at(1, 0, 4), at(1, 8, 15)]
    );
    assert_eq!(occurrences[2].id, SymbolId::Value(ValueId(2)));
    assert_eq!(occurrences[2].kind, SymbolKind::Parameter);
    assert_eq!(occurrences[2].role, OccurrenceRole::Reference);
    assert_eq!(occurrences[2].detail.as_deref(), Some("Int32"));
    assert_eq!(occurrences[3].detail.as_deref(), Some("Int32 -> Unit"));
    assert_eq!(occurrences[5].detail, None);
    assert_eq!(document.hover_at(10), Some("Int32"));
}

#[test]
fn the_outline_holds_the_declared_top_level_symbols_of_the_file() {
    let everything = finished_document(None, None);
    let names: Vec<&str> = everything.document_symbols().iter().map(|s| s.name.as_str()).collect();
    assert_eq!(names, vec!["f", "put", "Wide", "_hidden"]);

    let first = finished_document(Some(FileId::new(0)), None);
    let names: Vec<&str> = first.document_symbols().iter().map(|s| s.name.as_str()).collect();
    assert_eq!(names, vec!["f", "put"]);
    let put = &first.document_symbols()[1];
    assert_eq!(put.kind, SymbolKind::Function);
    assert_eq!(put.span, Some(at(0, 20, 23)));
}

#[test]
fn completions_come_sorted_with_the_first_symbol_of_each_name() {
    let document = finished_document(Some(FileId::new(0)), None);
    let names: Vec<&str> = document.completions().iter().map(|s| s.name.as_str()).collect();
    assert_eq!(names, vec!["Int32", "f", "put"]);
    assert_eq!(document.completions()[1].id, SymbolId::Value(ValueId(0)));

    let mut visible = HashSet::new();
    visible.insert(1);
    let document = finished_document(Some(FileId::new(0)), Some(&visible));
    let names: Vec<&str> = document.completions().iter().map(|s| s.name.as_str()).collect();
    assert_eq!(names, vec!["Int32", "Wide", "f", "put"]);

    let document = finished_document(None, None);
    let names: Vec<&str> = document.completions().iter().map(|s| s.name.as_str()).collect();
    assert_eq!(names, vec!["Int32", "Wide", "_hidden", "f", "put"]);
}

fn occurrence(id: u32, span: Span, role: OccurrenceRole) -> Occurrence {
    Occurrence {
        id: SymbolId::Value(ValueId(id)),
        name: format!("v{id}"),
        span,
        kind: SymbolKind::Value,
        role,
        detail: None,
    }
}

#[test]
fn sorting_by_span_keeps_equal_spans_in_their_order() {
    let input = vec![
        occurrence(1, at(1, 0, 2), OccurrenceRole::Reference),
        occurrence(2, at(0, 4, 9), OccurrenceRole::Reference),
        occurrence(3, at(0, 4, 6), OccurrenceRole::Reference),
        occurrence(4, at(0, 4, 9), OccurrenceRole::Declaration),
        occurrence(5, at(0, 1, 2), OccurrenceRole::Reference),
    ];
    let ids: Vec<SymbolId> = sort_by_span(&input).iter().map(|o| o.id).collect();
    let expected: Vec<SymbolId> = [5, 3, 2, 4, 1].iter().map(|&n| SymbolId::Value(ValueId(n))).collect();
    assert_eq!(ids, expected);
}

#[test]
fn a_symbol_comes_from_the_first_declaration() {
    let occurrences = vec![
        occurrence(1, at(0, 0, 1), OccurrenceRole::Reference),
        occurrence(1, at(0, 3, 4), OccurrenceRole::Declaration),
        occurrence(1, at(0, 6, 7), OccurrenceRole::Declaration),
    ];
    let symbol = symbol_for(SymbolId::Value(ValueId(1)), &occurrences).unwrap();
    assert_eq!(symbol.span, Some(at(0, 3, 4)));
    assert_eq!(symbol.name, "v1");
    assert!(symbol_for(SymbolId::Value(ValueId(2)), &occurrences).is_none());
}

#[test]
fn of_equal_names_the_first_symbol_is_kept() {
    let symbol = |id: u32, text: &str| Symbol {
        id: SymbolId::Value(ValueId(id)),
        name: text.to_string(),
        kind: SymbolKind::Value,
        detail: None,
        span: None,
    };
    let input = vec![symbol(1, "b"), symbol(2, "a"), symbol(3, "b"), symbol(4, "ab"), symbol(5, "a")];
    let output = first_of_each_name_sorted(&input);
    let kept: Vec<(u32, &str)> = output
        .iter()
        .map(|s| match s.id {
            SymbolId::Value(ValueId(n)) => (n, s.name.as_str()),
            _ => (0, ""),
        })
        .collect();
    assert_eq!(kept, vec![(2, "a"), (4, "ab"), (1, "b")]);
}
