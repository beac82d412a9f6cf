use lib::driver::graph::{cyclic_requirement, requirement_kind, GraphBuilder, LoadState, RequirementKind, SourceRequirement};
use lib::source::{FileId, Span};

fn text(value: &str) -> Vec<char> {
    value.chars().collect()
}

fn at(start: usize) -> Span {
    Span::new(FileId::new(0), start, start + 5)
}

#[test]
fn requirement_paths_are_told_apart_by_extension() {
    assert_eq!(requirement_kind(&text("lib/util.mal")), Some(RequirementKind::Mal));
    assert_eq!(requirement_kind(&text("host.c")), Some(RequirementKind::C));
    assert_eq!(requirement_kind(&text("notes.txt")), None);
    assert_eq!(requirement_kind(&text("dir.mal/readme")), None);
    assert_eq!(requirement_kind(&text(".mal")), None);
    assert_eq!(requirement_kind(&text("archive.tar.c")), Some(RequirementKind::C));
}

#[test]
fn a_file_loads_once_and_a_cycle_is_seen_while_loading() {
    let mut builder = GraphBuilder::new();
    assert_eq!(builder.state(&text("/a.mal")), None);
    let a = builder.start(text("/a.mal"));
    assert_eq!(a, FileId::new(0));
    assert_eq!(builder.state(&text("/a.mal")), Some(LoadState::Loading));
    let b = builder.start(text("/b.mal"));
    assert_eq!(b, FileId::new(1));
    builder.finish(&text("/b.mal"), b);
    assert_eq!(builder.state(&text("/b.mal")), Some(LoadState::Loaded(b)));
    assert_eq!(builder.state(&text("/a.mal")), Some(LoadState::Loading));
    let cycle = cyclic_requirement("/a.mal", at(3));
    assert_eq!(cycle.message, "cyclic `.mal` requirement");
    assert_eq!(cycle.primary.unwrap().message, "this reaches `/a.mal` while it is still loading");
}

#[test]
fn requirement_edges_and_c_sources_are_kept_once() {
    let mut builder = GraphBuilder::new();
    let a = builder.start(text("/a.mal"));
    let b = builder.start(text("/b.mal"));
    builder.require(a, b, at(0));
    builder.require(a, b, at(10));
    assert_eq!(builder.requirements_of(a), [SourceRequirement { target: b, span: at(0) }]);
    assert!(builder.add_c_source(text("/host.c")));
    assert!(!builder.add_c_source(text("/host.c")));
    assert!(builder.add_c_source(text("/other.c")));
    assert_eq!(builder.c_sources(), &vec![text("/host.c"), text("/other.c")]);
}
