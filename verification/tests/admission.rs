use lib::check::specialize::admission::{admit_specialization, SPECIALIZATION_LIMIT};
use lib::source::{FileId, Span};

#[test]
fn admits_the_specialization_limit_and_rejects_the_next_node_at_its_span() {
    let span = Span::new(FileId::new(91), 4, 9);
    assert!(admit_specialization(SPECIALIZATION_LIMIT - 1, span).is_ok());
    let diagnostic = admit_specialization(SPECIALIZATION_LIMIT, span).expect_err("node beyond limit");
    assert_eq!(diagnostic.primary.as_ref().unwrap().span, span);
    assert!(diagnostic.primary.unwrap().message.contains("65536"));
}

#[test]
fn the_first_specialization_node_is_admitted() {
    let span = Span::new(FileId::new(1), 0, 1);
    assert!(admit_specialization(0, span).is_ok());
}
