use lib::lexer::{lex, TokenKind};
use lib::source::{FileId, SourceFile};

fn kinds(text: &str) -> Vec<TokenKind> {
    let source = SourceFile::new(FileId::new(0), "lex.mal", text.into());
    lex(&source).unwrap().into_iter().map(|token| token.kind).collect()
}

#[test]
fn words_numbers_and_punctuation_become_tokens() {
    assert_eq!(
        kinds("main :: Unit -> Int32 := () { 1.5 };"),
        vec![
            TokenKind::ValueIdentifier,
            TokenKind::DoubleColon,
            TokenKind::TypeIdentifier,
            TokenKind::Arrow,
            TokenKind::TypeIdentifier,
            TokenKind::Bind,
            TokenKind::LeftParen,
            TokenKind::RightParen,
            TokenKind::LeftBrace,
            TokenKind::Float,
            TokenKind::RightBrace,
            TokenKind::Semicolon,
            TokenKind::Eof,
        ]
    );
}

#[test]
fn keywords_symbols_and_comments() {
    assert_eq!(
        kinds("require \"a.mal\"; // note\nextern x => 42i32"),
        vec![
            TokenKind::Require,
            TokenKind::Symbol(b"a.mal".to_vec()),
            TokenKind::Semicolon,
            TokenKind::Extern,
            TokenKind::ValueIdentifier,
            TokenKind::FatArrow,
            TokenKind::Integer,
            TokenKind::Eof,
        ]
    );
}

#[test]
fn an_unexpected_character_is_reported_where_it_stands() {
    let source = SourceFile::new(FileId::new(3), "bad.mal", "x $ y".into());
    let error = lex(&source).unwrap_err();
    assert_eq!(error.message, "unexpected character");
    let label = error.primary.unwrap();
    assert_eq!((label.span.start(), label.span.end()), (2, 3));
}

#[test]
fn an_empty_file_is_only_its_end() {
    assert_eq!(kinds("  \n"), vec![TokenKind::Eof]);
}

#[test]
fn spans_skip_blanks_and_comments_and_take_the_longest_punctuation() {
    let source = SourceFile::new(FileId::new(0), "lex.mal", "  ab_1 // c\n<= 7.x >>".into());
    let spans: Vec<(usize, usize)> = lex(&source)
        .unwrap()
        .into_iter()
        .map(|token| (token.span.start(), token.span.end()))
        .collect();
    assert_eq!(spans, vec![(2, 6), (12, 14), (15, 16), (16, 17), (17, 18), (19, 21), (21, 21)]);
}

#[test]
fn an_unclosed_symbol_literal_is_an_error() {
    let source = SourceFile::new(FileId::new(0), "lex.mal", "x \"abc\ny\"".into());
    let error = lex(&source).unwrap_err();
    assert_eq!(error.message, "unterminated symbol literal");
    let label = error.primary.unwrap();
    assert_eq!((label.span.start(), label.span.end()), (2, 7));
}

#[test]
fn token_spans_count_bytes_after_non_ascii_text() {
    let source = SourceFile::new(FileId::new(0), "lex.mal", "// é\nx".into());
    let tokens = lex(&source).unwrap();
    assert_eq!(tokens.len(), 2);
    assert_eq!(tokens[0].kind, TokenKind::ValueIdentifier);
    assert_eq!((tokens[0].span.start(), tokens[0].span.end()), (6, 7));
    assert_eq!((tokens[1].span.start(), tokens[1].span.end()), (7, 7));
    let error = lex(&SourceFile::new(FileId::new(0), "lex.mal", "é".into())).unwrap_err();
    let label = error.primary.unwrap();
    assert_eq!((label.span.start(), label.span.end()), (0, 2));
}
