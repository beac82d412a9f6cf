use lib::editor::syntax::analyze;
use lib::editor::SymbolKind;
use lib::source::{FileId, SourceFile};

#[test]
fn indexes_tokens_and_functions_without_parsing_the_program() {
    let source = SourceFile::new(
        FileId::new(0),
        "syntax.mal",
        "require \"./dependency.mal\";\nextern send :: Int32 -> Unit;\nhelper := (value) -> [done] => done(value);\nmain :: Unit -> Int32 := () -> helper(1).;\n".into(),
    );
    let document = analyze(&source).expect("lexical syntax document");

    assert_eq!(document.functions(), &["helper", "main", "send"]);
    assert_eq!(document.requirements().len(), 1);
    let requirement = &document.requirements()[0];
    assert_eq!(
        &source.text()
            [requirement.declaration_span().start()..requirement.declaration_span().end()],
        "require \"./dependency.mal\";"
    );
    assert_eq!(
        &source.text()[requirement.path_span().start()..requirement.path_span().end()],
        "./dependency.mal"
    );
    assert_eq!(requirement.path(), b"./dependency.mal");
    assert!(document.tokens().iter().any(|token| {
        token.kind == SymbolKind::Function
            && &source.text()[token.span.start()..token.span.end()] == "helper"
    }));
}

#[test]
fn does_not_treat_a_product_containing_a_function_as_a_function() {
    let source = SourceFile::new(
        FileId::new(0),
        "syntax.mal",
        "pair :: (Int32 -> Int32, Int32) := missing;\n\
         callback :: (Int32 -> Int32) := missing;\n\
         main :: Unit -> Int32 := () -> { callback(1). };\n"
            .into(),
    );
    let document = analyze(&source).expect("lexical syntax document");

    assert_eq!(document.functions(), &["callback", "main"]);
}

#[test]
fn a_function_declared_twice_is_listed_once_and_nested_names_are_not_declarations() {
    let source = SourceFile::new(
        FileId::new(3),
        "twice.mal",
        "zeta := () { inner := () { 1 }; };\nalpha :: Int32 -> Int32;\nalpha := (x) { x };\n".into(),
    );
    let document = analyze(&source).expect("lexical syntax document");
    assert_eq!(document.functions(), &["alpha", "zeta"]);
    let declared: Vec<&str> = document
        .tokens()
        .iter()
        .filter(|token| token.declaration)
        .map(|token| &source.text()[token.span.start()..token.span.end()])
        .collect();
    assert_eq!(declared, vec!["zeta", "inner", "alpha", "alpha"]);
}

#[test]
fn a_lambda_with_a_capture_list_before_its_body_is_a_function() {
    let source = SourceFile::new(
        FileId::new(4),
        "capture.mal",
        "run := (x) [y] { x };\nvalue := (1);\n".into(),
    );
    let document = analyze(&source).expect("lexical syntax document");
    assert_eq!(document.functions(), &["run"]);
}

#[test]
fn requirements_stop_at_the_first_other_declaration() {
    let source = SourceFile::new(
        FileId::new(5),
        "requires.mal",
        "require \"a.mal\";\nrequire \"b.mal\";\nmain := 1;\nrequire \"c.mal\";\n".into(),
    );
    let document = analyze(&source).expect("lexical syntax document");
    let paths: Vec<&[u8]> = document.requirements().iter().map(|r| r.path()).collect();
    assert_eq!(paths, vec![b"a.mal".as_slice(), b"b.mal".as_slice()]);
}

#[test]
fn an_unterminated_symbol_is_a_lexical_error() {
    let source = SourceFile::new(FileId::new(6), "bad.mal", "require \"open;\n".into());
    let error = analyze(&source).unwrap_err();
    assert_eq!(error.message, "unterminated symbol literal");
    let label = error.primary.unwrap();
    assert_eq!((label.span.start(), label.span.end()), (8, 15));
}

#[test]
fn function_names_are_read_past_non_ascii_comments() {
    let source = SourceFile::new(
        FileId::new(7),
        "names.mal",
        "// çà\nhelper := (value) -> { value; };\n".into(),
    );
    let document = analyze(&source).expect("lexical syntax document");
    assert_eq!(document.functions(), ["helper".to_string()]);
    assert_eq!(document.tokens()[0].span.start(), 8);
}
