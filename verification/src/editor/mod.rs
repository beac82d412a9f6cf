use vstd::prelude::*;

use crate::resolve::{ExternalOperationId, TypeId, ValueId};
use crate::source::Span;

pub mod index;
pub mod outline;
pub mod syntax;

verus! {

#[derive(Clone, Copy, Debug, PartialEq, Eq, Hash, Structural)]
pub enum SymbolId {
    Type(TypeId),
    Value(ValueId),
    ExternalOperation(ExternalOperationId),
}

#[derive(Clone, Copy, Debug, PartialEq, Eq, Structural)]
pub enum SymbolKind {
    Type,
    Value,
    Function,
    Parameter,
}

#[derive(Clone, Copy, Debug, PartialEq, Eq, Structural)]
pub enum OccurrenceRole {
    Declaration,
    Reference,
}

#[derive(Clone, Debug, PartialEq, Eq)]
pub struct Occurrence {
    pub id: SymbolId,
    pub name: String,
    pub span: Span,
    pub kind: SymbolKind,
    pub role: OccurrenceRole,
    pub detail: Option<String>,
}

#[derive(Clone, Debug, PartialEq, Eq)]
pub struct Symbol {
    pub id: SymbolId,
    pub name: String,
    pub kind: SymbolKind,
    pub detail: Option<String>,
    pub span: Option<Span>,
}

/// The symbols of one analyzed file and the types of its regions.
#[derive(Clone, Debug)]
pub struct SemanticDocument {
    occurrences: Vec<Occurrence>,
    typed_regions: Vec<(Span, String)>,
    document_symbols: Vec<Symbol>,
    completions: Vec<Symbol>,
}

/// `offset` lies inside `span`.
pub open spec fn span_contains(span: Span, offset: int) -> bool {
    span.start <= offset && offset < span.end
}

pub open spec fn span_width(span: Span) -> int {
    span.end - span.start
}

/// `index` is the first of the narrowest spans among `spans` that contain `offset`.
pub open spec fn is_narrowest(spans: Seq<Span>, offset: int, index: int) -> bool {
    &&& 0 <= index < spans.len()
    &&& span_contains(spans[index], offset)
    &&& forall|j: int|
        0 <= j < spans.len() && span_contains(#[trigger] spans[j], offset) ==> span_width(spans[index])
            <= span_width(spans[j])
    &&& forall|j: int|
        0 <= j < index && span_contains(#[trigger] spans[j], offset) ==> span_width(spans[index])
            < span_width(spans[j])
}

/// Some span of `spans` contains `offset`.
pub open spec fn any_contains(spans: Seq<Span>, offset: int) -> bool {
    exists|j: int| 0 <= j < spans.len() && span_contains(#[trigger] spans[j], offset)
}

pub open spec fn occurrence_spans(occurrences: Seq<Occurrence>) -> Seq<Span> {
    occurrences.map_values(|o: Occurrence| o.span)
}

pub open spec fn region_spans(regions: Seq<(Span, String)>) -> Seq<Span> {
    regions.map_values(|r: (Span, String)| r.0)
}

/// The narrowest occurrence at `offset` has a detail.
pub open spec fn has_detail_at(occurrences: Seq<Occurrence>, offset: int) -> bool {
    exists|i: int|
        is_narrowest(occurrence_spans(occurrences), offset, i) && (#[trigger] occurrences[i]).detail is Some
}

/// The hover text at `offset`: the detail of the narrowest occurrence there, or else the type of
/// the narrowest typed region there.
pub open spec fn hover_text(occurrences: Seq<Occurrence>, regions: Seq<(Span, String)>, offset: int) -> Option<Seq<char>> {
    if has_detail_at(occurrences, offset) {
        let i = choose|i: int|
            is_narrowest(occurrence_spans(occurrences), offset, i) && (#[trigger] occurrences[i]).detail is Some;
        Some(occurrences[i].detail.unwrap()@)
    } else if any_contains(region_spans(regions), offset) {
        let i = choose|i: int| is_narrowest(region_spans(regions), offset, i);
        Some(regions[i].1@)
    } else {
        None
    }
}

/// `occurrence` declares symbol `id`.
pub open spec fn declares(occurrence: Occurrence, id: SymbolId) -> bool {
    occurrence.id == id && occurrence.role == OccurrenceRole::Declaration
}

/// `occurrence` is listed among the references of `id`.
pub open spec fn is_listed_reference(occurrence: Occurrence, id: SymbolId, include_declaration: bool) -> bool {
    occurrence.id == id && (include_declaration || occurrence.role == OccurrenceRole::Reference)
}

/// The occurrences of `occurrences` that are listed among the references of `id`, in order.
pub open spec fn listed_references(
    occurrences: Seq<Occurrence>,
    id: SymbolId,
    include_declaration: bool,
) -> Seq<Occurrence>
    decreases occurrences.len(),
{
    if occurrences.len() == 0 {
        Seq::empty()
    } else {
        let rest = listed_references(occurrences.drop_last(), id, include_declaration);
        if is_listed_reference(occurrences.last(), id, include_declaration) {
            rest.push(occurrences.last())
        } else {
            rest
        }
    }
}

/// Whether `offset` lies inside `span`.
pub fn contains(span: Span, offset: usize) -> (inside: bool)
    ensures
        inside == span_contains(span, offset as int),
{
    span.start() <= offset && offset < span.end()
}

/// Index of the first narrowest span containing `offset`.
fn narrowest<'a>(spans: &Vec<Span>, offset: usize) -> (found: Option<usize>)
    ensures
        found matches Some(i) ==> is_narrowest(spans@, offset as int, i as int),
        found is None ==> !any_contains(spans@, offset as int),
{
    let mut best: Option<usize> = None;
    let mut index: usize = 0;
    while index < spans.len()
        invariant
            index <= spans@.len(),
            best matches Some(b) ==> b < index && is_narrowest(spans@.take(index as int), offset as int, b as int),
            best is None ==> !any_contains(spans@.take(index as int), offset as int),
        decreases spans@.len() - index,
    {
        let span = spans[index];
        let ghost previous = spans@.take(index as int);
        let ghost next = spans@.take(index + 1);
        proof {
            assert(next == previous.push(span));
            assert forall|j: int| 0 <= j < index implies next[j] == previous[j] by {}
        }
        if contains(span, offset) {
            match best {
                Some(b) => {
                    if span.end() - span.start() < spans[b].end() - spans[b].start() {
                        best = Some(index);
                    }
                },
                None => {
                    best = Some(index);
                },
            }
        }
        proof {
            if best is None {
                assert forall|j: int| 0 <= j < next.len() implies !span_contains(#[trigger] next[j], offset as int) by {
                    if j < index {
                        assert(next[j] == previous[j]);
                    }
                }
            }
        }
        index = index + 1;
    }
    proof {
        assert(spans@.take(spans@.len() as int) == spans@);
    }
    best
}

impl SemanticDocument {
    pub closed spec fn spec_occurrences(&self) -> Seq<Occurrence> {
        self.occurrences@
    }

    pub closed spec fn spec_typed_regions(&self) -> Seq<(Span, String)> {
        self.typed_regions@
    }

    pub closed spec fn spec_document_symbols(&self) -> Seq<Symbol> {
        self.document_symbols@
    }

    pub closed spec fn spec_completions(&self) -> Seq<Symbol> {
        self.completions@
    }

    /// A document of the given occurrences, typed regions, outline symbols and completions.
    pub fn new(
        occurrences: Vec<Occurrence>,
        typed_regions: Vec<(Span, String)>,
        document_symbols: Vec<Symbol>,
        completions: Vec<Symbol>,
    ) -> (document: SemanticDocument)
        ensures
            document.spec_occurrences() == occurrences@,
            document.spec_typed_regions() == typed_regions@,
            document.spec_document_symbols() == document_symbols@,
            document.spec_completions() == completions@,
    {
        SemanticDocument { occurrences, typed_regions, document_symbols, completions }
    }

    pub fn occurrences(&self) -> (occurrences: &[Occurrence])
        ensures
            occurrences@ == self.spec_occurrences(),
    {
        self.occurrences.as_slice()
    }

    pub fn document_symbols(&self) -> (symbols: &[Symbol])
        ensures
            symbols@ == self.spec_document_symbols(),
    {
        self.document_symbols.as_slice()
    }

    pub fn completions(&self) -> (symbols: &[Symbol])
        ensures
            symbols@ == self.spec_completions(),
    {
        self.completions.as_slice()
    }

    /// The first of the narrowest occurrences that contain `byte_offset`.
    pub fn occurrence_at(&self, byte_offset: usize) -> (found: Option<&Occurrence>)
        ensures
            found is None <==> !any_contains(occurrence_spans(self.spec_occurrences()), byte_offset as int),
            found matches Some(o) ==> exists|i: int|
                is_narrowest(occurrence_spans(self.spec_occurrences()), byte_offset as int, i)
                    && self.spec_occurrences()[i] == *o,
    {
        let mut spans: Vec<Span> = Vec::new();
        let mut index: usize = 0;
        while index < self.occurrences.len()
            invariant
                index <= self.occurrences@.len(),
                spans@ == occurrence_spans(self.occurrences@.take(index as int)),
            decreases self.occurrences@.len() - index,
        {
            spans.push(self.occurrences[index].span);
            index = index + 1;
            proof {
                assert(occurrence_spans(self.occurrences@.take(index as int)) =~= occurrence_spans(
                    self.occurrences@.take(index - 1),
                ).push(self.occurrences@[index - 1].span));
            }
        }
        proof {
            assert(self.occurrences@.take(self.occurrences@.len() as int) == self.occurrences@);
        }
        match narrowest(&spans, byte_offset) {
            Some(i) => {
                proof {
                    assert(is_narrowest(occurrence_spans(self.spec_occurrences()), byte_offset as int, i as int)
                        && self.spec_occurrences()[i as int] == self.occurrences@[i as int]);
                }
                Some(&self.occurrences[i])
            },
            None => None,
        }
    }

    /// The detail of the occurrence at `byte_offset`, or else the type of the narrowest typed
    /// region there.
    pub fn hover_at(&self, byte_offset: usize) -> (text: Option<&str>)
        ensures
            text matches Some(t) ==> hover_text(
                self.spec_occurrences(),
                self.spec_typed_regions(),
                byte_offset as int,
            ) == Some(t@),
            text is None ==> hover_text(
                self.spec_occurrences(),
                self.spec_typed_regions(),
                byte_offset as int,
            ) is None,
    {
        let occurrence = self.occurrence_at(byte_offset);
        proof {
            lemma_narrowest_unique(occurrence_spans(self.spec_occurrences()), byte_offset as int);
        }
        match occurrence {
            Some(o) => match &o.detail {
                Some(detail) => {
                    return Some(detail.as_str());
                },
                None => {},
            },
            None => {},
        }
        let mut spans: Vec<Span> = Vec::new();
        let mut index: usize = 0;
        while index < self.typed_regions.len()
            invariant
                index <= self.typed_regions@.len(),
                spans@ == region_spans(self.typed_regions@.take(index as int)),
            decreases self.typed_regions@.len() - index,
        {
            spans.push(self.typed_regions[index].0);
            index = index + 1;
            proof {
                assert(region_spans(self.typed_regions@.take(index as int)) =~= region_spans(
                    self.typed_regions@.take(index - 1),
                ).push(self.typed_regions@[index - 1].0));
            }
        }
        proof {
            assert(self.typed_regions@.take(self.typed_regions@.len() as int) == self.typed_regions@);
        }
        match narrowest(&spans, byte_offset) {
            Some(i) => Some(self.typed_regions[i].1.as_str()),
            None => None,
        }
    }

    /// The first declaration of `id`.
    pub fn definition(&self, id: SymbolId) -> (found: Option<&Occurrence>)
        ensures
            found is None <==> forall|i: int|
                0 <= i < self.spec_occurrences().len() ==> !declares(
                    #[trigger] self.spec_occurrences()[i],
                    id,
                ),
            found matches Some(o) ==> exists|i: int|
                0 <= i < self.spec_occurrences().len() && self.spec_occurrences()[i] == *o
                    && declares(*o, id) && forall|j: int|
                    0 <= j < i ==> !declares(#[trigger] self.spec_occurrences()[j], id),
    {
        let mut index: usize = 0;
        while index < self.occurrences.len()
            invariant
                index <= self.occurrences@.len(),
                forall|j: int| 0 <= j < index ==> !declares(#[trigger] self.occurrences@[j], id),
            decreases self.occurrences@.len() - index,
        {
            let occurrence = &self.occurrences[index];
            if occurrence.id == id && occurrence.role == OccurrenceRole::Declaration {
                proof {
                    assert(declares(self.spec_occurrences()[index as int], id));
                    assert(forall|j: int|
                        0 <= j < index ==> !declares(#[trigger] self.spec_occurrences()[j], id));
                }
                return Some(occurrence);
            }
            index = index + 1;
        }
        None
    }

    /// The occurrences of `id` in order; declarations only when `include_declaration` holds.
    pub fn references(&self, id: SymbolId, include_declaration: bool) -> (found: Vec<&Occurrence>)
        ensures
            found@.len() == listed_references(self.spec_occurrences(), id, include_declaration).len(),
            forall|i: int|
                0 <= i < found@.len() ==> *found@[i] == listed_references(
                    self.spec_occurrences(),
                    id,
                    include_declaration,
                )[i],
    {
        let mut found: Vec<&Occurrence> = Vec::new();
        let mut index: usize = 0;
        while index < self.occurrences.len()
            invariant
                index <= self.occurrences@.len(),
                found@.len() == listed_references(
                    self.occurrences@.take(index as int),
                    id,
                    include_declaration,
                ).len(),
                forall|i: int|
                    0 <= i < found@.len() ==> *found@[i] == listed_references(
                        self.occurrences@.take(index as int),
                        id,
                        include_declaration,
                    )[i],
            decreases self.occurrences@.len() - index,
        {
            let occurrence = &self.occurrences[index];
            proof {
                assert(self.occurrences@.take(index + 1).drop_last() == self.occurrences@.take(
                    index as int,
                ));
            }
            if occurrence.id == id && (include_declaration || occurrence.role
                == OccurrenceRole::Reference) {
                found.push(occurrence);
            }
            index = index + 1;
        }
        proof {
            assert(self.occurrences@.take(self.occurrences@.len() as int) == self.occurrences@);
        }
        found
    }

    /// The spans of every occurrence of the declared symbol at `byte_offset`.
    pub fn rename_spans(&self, byte_offset: usize) -> (spans: Option<Vec<Span>>)
        ensures
            spans is Some <==> exists|i: int|
                is_narrowest(occurrence_spans(self.spec_occurrences()), byte_offset as int, i)
                    && exists|j: int|
                    0 <= j < self.spec_occurrences().len() && declares(
                        #[trigger] self.spec_occurrences()[j],
                        self.spec_occurrences()[i].id,
                    ),
            spans matches Some(s) ==> exists|i: int|
                is_narrowest(occurrence_spans(self.spec_occurrences()), byte_offset as int, i)
                    && s@ == occurrence_spans(
                    listed_references(self.spec_occurrences(), self.spec_occurrences()[i].id, true),
                ),
    {
        proof {
            lemma_narrowest_unique(occurrence_spans(self.spec_occurrences()), byte_offset as int);
        }
        let occurrence = match self.occurrence_at(byte_offset) {
            Some(o) => o,
            None => {
                return None;
            },
        };
        if self.definition(occurrence.id).is_none() {
            return None;
        }
        let references = self.references(occurrence.id, true);
        let ghost listed = listed_references(self.spec_occurrences(), occurrence.id, true);
        let mut spans: Vec<Span> = Vec::new();
        let mut index: usize = 0;
        while index < references.len()
            invariant
                index <= references@.len(),
                references@.len() == listed.len(),
                forall|i: int| 0 <= i < references@.len() ==> *references@[i] == listed[i],
                spans@ == occurrence_spans(listed.take(index as int)),
            decreases references@.len() - index,
        {
            spans.push(references[index].span);
            index = index + 1;
            proof {
                assert(occurrence_spans(listed.take(index as int)) =~= occurrence_spans(
                    listed.take(index - 1),
                ).push(listed[index - 1].span));
            }
        }
        proof {
            assert(listed.take(listed.len() as int) == listed);
        }
        Some(spans)
    }
}

/// The occurrences of `listed` whose role is `Reference`, in order.
pub open spec fn plain_references(listed: Seq<Occurrence>) -> Seq<Occurrence>
    decreases listed.len(),
{
    if listed.len() == 0 {
        Seq::empty()
    } else {
        let rest = plain_references(listed.drop_last());
        if listed.last().role == OccurrenceRole::Reference {
            rest.push(listed.last())
        } else {
            rest
        }
    }
}

/// `part` is `whole` with some items left out, the rest kept in order.
pub open spec fn is_subsequence<A>(part: Seq<A>, whole: Seq<A>) -> bool
    decreases whole.len(),
{
    if part.len() == 0 {
        true
    } else if whole.len() == 0 {
        false
    } else if part.last() == whole.last() {
        is_subsequence(part.drop_last(), whole.drop_last())
    } else {
        is_subsequence(part, whole.drop_last())
    }
}

proof fn lemma_plain_references_subsequence(listed: Seq<Occurrence>)
    ensures
        is_subsequence(plain_references(listed), listed),
    decreases listed.len(),
{
    if listed.len() > 0 {
        lemma_plain_references_subsequence(listed.drop_last());
        let rest = plain_references(listed.drop_last());
        if listed.last().role == OccurrenceRole::Reference {
            assert(rest.push(listed.last()).drop_last() =~= rest);
        } else if rest.len() > 0 {
            lemma_plain_references_are_references(listed.drop_last());
            assert(rest.last().role == OccurrenceRole::Reference);
        }
    }
}

proof fn lemma_plain_references_are_references(listed: Seq<Occurrence>)
    ensures
        forall|i: int|
            0 <= i < plain_references(listed).len() ==> (#[trigger] plain_references(listed)[i]).role
                == OccurrenceRole::Reference,
    decreases listed.len(),
{
    if listed.len() > 0 {
        lemma_plain_references_are_references(listed.drop_last());
    }
}

/// The references of a symbol without its declarations are its references with declarations,
/// the declarations left out in order: a subsequence of them that holds only references of
/// the symbol.
pub proof fn lemma_references_without_declarations(occurrences: Seq<Occurrence>, id: SymbolId)
    ensures
        listed_references(occurrences, id, false) == plain_references(
            listed_references(occurrences, id, true),
        ),
        is_subsequence(listed_references(occurrences, id, false), listed_references(occurrences, id, true)),
        forall|i: int|
            0 <= i < listed_references(occurrences, id, false).len() ==> (#[trigger] listed_references(
                occurrences,
                id,
                false,
            )[i]).id == id && listed_references(occurrences, id, false)[i].role
                == OccurrenceRole::Reference,
    decreases occurrences.len(),
{
    lemma_plain_references_subsequence(listed_references(occurrences, id, true));
    if occurrences.len() > 0 {
        let rest = occurrences.drop_last();
        lemma_references_without_declarations(rest, id);
        let with = listed_references(occurrences, id, true);
        if occurrences.last().id == id {
            assert(with == listed_references(rest, id, true).push(occurrences.last()));
            assert(with.drop_last() =~= listed_references(rest, id, true));
        }
    }
}

/// At most one index is the first narrowest span containing an offset.
pub proof fn lemma_narrowest_unique(spans: Seq<Span>, offset: int)
    ensures
        forall|i: int, j: int|
            is_narrowest(spans, offset, i) && is_narrowest(spans, offset, j) ==> i == j,
{
    assert forall|i: int, j: int|
        is_narrowest(spans, offset, i) && is_narrowest(spans, offset, j) implies i == j by {
        if i < j {
            assert(span_contains(spans[i], offset));
        } else if j < i {
            assert(span_contains(spans[j], offset));
        }
    }
}

} // verus!
