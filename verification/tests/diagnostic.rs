use lib::diagnostic::Diagnostic;
use lib::source::{FileId, SourceFile, Span};

#[test]
fn renders_a_primary_source_label() {
    let file = FileId::new(0);
    let source = SourceFile::new(file, "sample.mal", "first\nreturn 12;\n".into());
    let diagnostic = Diagnostic::error("unexpected integer")
        .with_primary(Span::new(file, 13, 15), "expected Unit")
        .with_note("a lambda body has one result type");

    assert_eq!(
        diagnostic.render(&source),
        [
            "error: unexpected integer\n",
            " --> sample.mal:2:8\n",
            "  |\n",
            "2 | return 12;\n",
            "  |        ^^ expected Unit\n",
            "note: a lambda body has one result type\n",
        ]
        .concat()
    );
}

#[test]
fn empty_spans_have_a_single_caret() {
    let file = FileId::new(0);
    let source = SourceFile::new(file, "sample.mal", "abc".into());
    let diagnostic =
        Diagnostic::error("missing token").with_primary(Span::new(file, 3, 3), "expected `;`");

    assert!(diagnostic.render(&source).contains("|    ^ expected `;`"));
}

#[test]
fn a_diagnostic_without_a_label_renders_its_message_and_notes() {
    let file = FileId::new(1);
    let source = SourceFile::new(file, "other.mal", "x".into());
    let diagnostic = Diagnostic::error("no entry point").with_note("declare main");
    assert_eq!(
        diagnostic.render(&source),
        "error: no entry point\nnote: declare main\n"
    );
}

#[test]
fn spans_are_byte_offsets_into_the_utf8_text() {
    let file = FileId::new(0);
    let source = SourceFile::new(file, "sample.mal", "é\nx".into());
    let diagnostic = Diagnostic::error("unexpected name").with_primary(Span::new(file, 3, 4), "here");
    assert_eq!(
        diagnostic.render(&source),
        "error: unexpected name\n --> sample.mal:2:1\n  |\n2 | x\n  | ^ here\n"
    );
    let inside = Diagnostic::error("bad").with_primary(Span::new(file, 1, 2), "split");
    assert!(inside.render(&source).contains(":<invalid span>"));
    assert_eq!(source.char_position(3), Some(2));
    assert_eq!(source.char_position(1), None);
}
