use lib::editor::{Occurrence, OccurrenceRole, SemanticDocument, Symbol, SymbolId, SymbolKind};
use lib::resolve::{TypeId, ValueId};
use lib::source::{FileId, Span};

fn span(start: usize, end: usize) -> Span {
    Span::new(FileId::new(0), start, end)
}

fn occurrence(id: u32, start: usize, end: usize, role: OccurrenceRole, detail: Option<&str>) -> Occurrence {
    Occurrence {
        id: SymbolId::Value(ValueId(id)),
        name: format!("v{id}"),
        span: span(start, end),
        kind: SymbolKind::Value,
        role,
        detail: detail.map(|d| d.to_string()),
    }
}

fn document() -> SemanticDocument {
    SemanticDocument::new(
        vec![
            occurrence(1, 0, 5, OccurrenceRole::Declaration, Some("v1 :: Int32")),
            occurrence(1, 10, 12, OccurrenceRole::Reference, None),
            occurrence(2, 10, 11, OccurrenceRole::Reference, Some("narrow")),
            occurrence(3, 20, 23, OccurrenceRole::Reference, None),
        ],
        vec![(span(30, 40), "Symbol".to_string()), (span(32, 34), "UInt8".to_string())],
        vec![Symbol {
            id: SymbolId::Type(TypeId(4)),
            name: "Pair".into(),
            kind: SymbolKind::Type,
            detail: None,
            span: None,
        }],
        vec![],
    )
}

#[test]
fn the_narrowest_occurrence_wins_and_the_first_of_equal_width() {
    let doc = document();
    assert_eq!(doc.occurrence_at(10).unwrap().id, SymbolId::Value(ValueId(2)));
    assert_eq!(doc.occurrence_at(11).unwrap().id, SymbolId::Value(ValueId(1)));
    assert!(doc.occurrence_at(5).is_none());
    assert!(doc.occurrence_at(7).is_none());
}

#[test]
fn hover_prefers_an_occurrence_detail_then_the_narrowest_typed_region() {
    let doc = document();
    assert_eq!(doc.hover_at(2), Some("v1 :: Int32"));
    assert_eq!(doc.hover_at(10), Some("narrow"));
    assert_eq!(doc.hover_at(33), Some("UInt8"));
    assert_eq!(doc.hover_at(31), Some("Symbol"));
    assert_eq!(doc.hover_at(21), None);
}

#[test]
fn definitions_references_and_renames_follow_the_symbol() {
    let doc = document();
    assert_eq!(doc.definition(SymbolId::Value(ValueId(1))).unwrap().span, span(0, 5));
    assert!(doc.definition(SymbolId::Value(ValueId(3))).is_none());
    assert_eq!(doc.references(SymbolId::Value(ValueId(1)), true).len(), 2);
    assert_eq!(doc.references(SymbolId::Value(ValueId(1)), false).len(), 1);
    assert_eq!(doc.rename_spans(1), Some(vec![span(0, 5), span(10, 12)]));
    assert_eq!(doc.rename_spans(21), None);
    assert_eq!(doc.document_symbols().len(), 1);
    assert!(doc.completions().is_empty());
    assert_eq!(doc.occurrences().len(), 4);
}
