use vstd::prelude::*;

use std::collections::HashSet;

use crate::source::{FileId, Span};
use crate::text::{
    lemma_text_less_irreflexive, lemma_text_less_total, lemma_text_less_transitive, push_str,
    text_before, text_less,
};

use super::{declares, Occurrence, OccurrenceRole, Symbol, SymbolId};

verus! {

/// `a` comes no later than `b` in source order: by file, then start, then end.
pub open spec fn span_key_le(a: Span, b: Span) -> bool {
    ||| a.file.0 < b.file.0
    ||| a.file.0 == b.file.0 && a.start < b.start
    ||| a.file.0 == b.file.0 && a.start == b.start && a.end <= b.end
}

/// `output` is `input` sorted stably by span: `output[i]` is `input[order[i]]`, the spans come in
/// source order, and occurrences with the same span keep their relative order.
pub open spec fn stably_sorted_by_span(
    input: Seq<Occurrence>,
    output: Seq<Occurrence>,
    order: Seq<int>,
) -> bool {
    &&& output.len() == input.len()
    &&& order.len() == input.len()
    &&& forall|i: int| 0 <= i < order.len() ==> 0 <= #[trigger] order[i] < input.len()
    &&& forall|i: int| 0 <= i < output.len() ==> #[trigger] output[i] == input[order[i]]
    &&& forall|i: int, j: int| 0 <= i < j < order.len() ==> order[i] != order[j]
    &&& forall|i: int, j: int|
        0 <= i < j < output.len() ==> span_key_le(#[trigger] output[i].span, #[trigger] output[j].span)
    &&& forall|i: int, j: int|
        0 <= i < j < output.len() && output[i].span == output[j].span ==> #[trigger] order[i]
            < #[trigger] order[j]
}

/// Whether `a` comes no later than `b` in source order.
pub fn span_in_order(a: Span, b: Span) -> (before: bool)
    ensures
        before == span_key_le(a, b),
{
    a.file.0 < b.file.0 || (a.file.0 == b.file.0 && (a.start < b.start || (a.start == b.start
        && a.end <= b.end)))
}

/// A copy of `occurrence`.
pub fn copy_occurrence(occurrence: &Occurrence) -> (copy: Occurrence)
    ensures
        copy == *occurrence,
{
    Occurrence {
        id: occurrence.id,
        name: occurrence.name.clone(),
        span: occurrence.span,
        kind: occurrence.kind,
        role: occurrence.role,
        detail: match &occurrence.detail {
            Some(text) => Some(text.clone()),
            None => None,
        },
    }
}

/// A copy of `symbol`.
pub fn copy_symbol(symbol: &Symbol) -> (copy: Symbol)
    ensures
        copy == *symbol,
{
    Symbol {
        id: symbol.id,
        name: symbol.name.clone(),
        kind: symbol.kind,
        detail: match &symbol.detail {
            Some(text) => Some(text.clone()),
            None => None,
        },
        span: symbol.span,
    }
}

/// `output` holds `input[..k]` sorted stably by span, `output[i]` being `input[order[i]]`.
pub open spec fn sorted_prefix(input: Seq<Occurrence>, output: Seq<Occurrence>, order: Seq<int>, k: int) -> bool {
    &&& 0 <= k <= input.len()
    &&& output.len() == k
    &&& order.len() == k
    &&& forall|i: int| 0 <= i < order.len() ==> 0 <= #[trigger] order[i] < k
    &&& forall|i: int| 0 <= i < output.len() ==> #[trigger] output[i] == input[order[i]]
    &&& forall|i: int, j: int| 0 <= i < j < order.len() ==> order[i] != order[j]
    &&& forall|i: int, j: int|
        0 <= i < j < output.len() ==> span_key_le(#[trigger] output[i].span, #[trigger] output[j].span)
    &&& forall|i: int, j: int|
        0 <= i < j < output.len() && output[i].span == output[j].span ==> #[trigger] order[i]
            < #[trigger] order[j]
}

proof fn lemma_sorted_insert(input: Seq<Occurrence>, output: Seq<Occurrence>, order: Seq<int>, k: int, p: int)
    requires
        sorted_prefix(input, output, order, k),
        k < input.len(),
        0 <= p <= output.len(),
        forall|q: int| 0 <= q < p ==> span_key_le((#[trigger] output[q]).span, input[k].span),
        forall|q: int| p <= q < output.len() ==> !span_key_le((#[trigger] output[q]).span, input[k].span),
    ensures
        sorted_prefix(input, output.insert(p, input[k]), order.insert(p, k), k + 1),
{
    let item = input[k];
    let next = output.insert(p, item);
    let next_order = order.insert(p, k);
    output.insert_ensures(p, item);
    order.insert_ensures(p, k);
    assert forall|i: int| 0 <= i < next_order.len() implies 0 <= #[trigger] next_order[i] < k + 1 by {
        if i > p {
            assert(next_order[i] == order[i - 1]);
        }
    }
    assert forall|i: int| 0 <= i < next.len() implies #[trigger] next[i] == input[next_order[i]] by {
        if i > p {
            assert(next[i] == output[i - 1]);
            assert(next_order[i] == order[i - 1]);
        }
    }
    assert forall|i: int, j: int| 0 <= i < j < next_order.len() implies next_order[i] != next_order[j] by {
        if j > p && i > p {
            assert(next_order[i] == order[i - 1]);
            assert(next_order[j] == order[j - 1]);
        } else if j > p {
            assert(next_order[j] == order[j - 1]);
        }
    }
    assert forall|i: int, j: int| 0 <= i < j < next.len() implies span_key_le(
        #[trigger] next[i].span,
        #[trigger] next[j].span,
    ) by {
        if j > p && i > p {
            assert(next[i] == output[i - 1]);
            assert(next[j] == output[j - 1]);
        } else if j > p && i == p {
            assert(next[j] == output[j - 1]);
            assert(!span_key_le(output[j - 1].span, item.span));
        } else if j > p {
            assert(next[j] == output[j - 1]);
        }
    }
    assert forall|i: int, j: int|
        0 <= i < j < next.len() && next[i].span == next[j].span implies #[trigger] next_order[i]
        < #[trigger] next_order[j] by {
        if j > p && i > p {
            assert(next[i] == output[i - 1]);
            assert(next[j] == output[j - 1]);
            assert(next_order[i] == order[i - 1]);
            assert(next_order[j] == order[j - 1]);
        } else if j > p && i == p {
            assert(next[j] == output[j - 1]);
            assert(!span_key_le(output[j - 1].span, item.span));
        } else if j > p {
            assert(next[j] == output[j - 1]);
            assert(next_order[j] == order[j - 1]);
        }
    }
}

/// The occurrences sorted stably by span.
pub fn sort_by_span(input: &Vec<Occurrence>) -> (output: Vec<Occurrence>)
    ensures
        exists|order: Seq<int>| stably_sorted_by_span(input@, output@, order),
{
    let mut output: Vec<Occurrence> = Vec::new();
    let ghost mut order: Seq<int> = Seq::empty();
    let mut k: usize = 0;
    while k < input.len()
        invariant
            sorted_prefix(input@, output@, order, k as int),
        decreases input@.len() - k,
    {
        let item = copy_occurrence(&input[k]);
        let mut position = output.len();
        while position > 0 && !span_in_order(output[position - 1].span, item.span)
            invariant
                position <= output@.len(),
                forall|q: int|
                    position <= q < output@.len() ==> !span_key_le(#[trigger] output@[q].span, item.span),
            decreases position,
        {
            position = position - 1;
        }
        proof {
            if position > 0 {
                assert(span_key_le(output@[position - 1].span, item.span));
            }
            assert forall|q: int| 0 <= q < position implies span_key_le(
                #[trigger] output@[q].span,
                item.span,
            ) by {
                if q < position - 1 {
                    assert(span_key_le(output@[q].span, output@[position - 1].span));
                }
            }
            lemma_sorted_insert(input@, output@, order, k as int, position as int);
            order = order.insert(position as int, k as int);
        }
        output.insert(position, item);
        k = k + 1;
    }
    proof {
        assert(stably_sorted_by_span(input@, output@, order));
    }
    output
}

/// The index of the first declaration of `id` among `occurrences[from..]`.
pub open spec fn first_declaration_from(occurrences: Seq<Occurrence>, id: SymbolId, from: nat) -> Option<int>
    decreases occurrences.len() - from,
{
    if from >= occurrences.len() {
        None
    } else if declares(occurrences[from as int], id) {
        Some(from as int)
    } else {
        first_declaration_from(occurrences, id, from + 1)
    }
}

/// The symbol that a declaring occurrence describes.
pub open spec fn declaration_symbol(occurrence: Occurrence) -> Symbol {
    Symbol {
        id: occurrence.id,
        name: occurrence.name,
        kind: occurrence.kind,
        detail: occurrence.detail,
        span: Some(occurrence.span),
    }
}

/// The symbol that the first declaration of `id` among `occurrences` describes, if any.
pub open spec fn declared_symbol(id: SymbolId, occurrences: Seq<Occurrence>) -> Option<Symbol> {
    match first_declaration_from(occurrences, id, 0) {
        Some(at) => Some(declaration_symbol(occurrences[at])),
        None => None,
    }
}

/// The declared symbols of `ids`, in order, leaving out those that nothing declares.
pub open spec fn declared_symbols(ids: Seq<SymbolId>, occurrences: Seq<Occurrence>) -> Seq<Symbol>
    decreases ids.len(),
{
    if ids.len() == 0 {
        Seq::empty()
    } else {
        let rest = declared_symbols(ids.drop_last(), occurrences);
        match declared_symbol(ids.last(), occurrences) {
            Some(symbol) => rest.push(symbol),
            None => rest,
        }
    }
}

/// `symbol` belongs in the outline of `file`; every symbol does when no file is chosen.
pub open spec fn in_document(symbol: Symbol, file: Option<FileId>) -> bool {
    match file {
        None => true,
        Some(file) => match symbol.span {
            Some(span) => span.file == file,
            None => false,
        },
    }
}

/// The symbols of `symbols` that belong in the outline of `file`, in order.
pub open spec fn document_symbols_of(symbols: Seq<Symbol>, file: Option<FileId>) -> Seq<Symbol>
    decreases symbols.len(),
{
    if symbols.len() == 0 {
        Seq::empty()
    } else {
        let rest = document_symbols_of(symbols.drop_last(), file);
        if in_document(symbols.last(), file) {
            rest.push(symbols.last())
        } else {
            rest
        }
    }
}

/// `symbol` is offered for completion in `file`: it is declared somewhere, and when a file is
/// chosen it is declared there, or in a visible file under a name that does not begin with `_`.
pub open spec fn offered(symbol: Symbol, file: Option<FileId>, visible: Option<Set<u32>>) -> bool {
    match symbol.span {
        None => false,
        Some(span) => match file {
            None => true,
            Some(file) => span.file == file || (match visible {
                Some(visible) => visible.contains(span.file.0),
                None => false,
            } && !(symbol.name@.len() > 0 && symbol.name@[0] == '_')),
        },
    }
}

/// The symbols of `symbols` offered for completion in `file`, in order.
pub open spec fn offered_symbols(symbols: Seq<Symbol>, file: Option<FileId>, visible: Option<Set<u32>>) -> Seq<Symbol>
    decreases symbols.len(),
{
    if symbols.len() == 0 {
        Seq::empty()
    } else {
        let rest = offered_symbols(symbols.drop_last(), file, visible);
        if offered(symbols.last(), file, visible) {
            rest.push(symbols.last())
        } else {
            rest
        }
    }
}

/// `input[k]` is the first symbol of `input` with its name.
pub open spec fn first_with_name(input: Seq<Symbol>, k: int) -> bool {
    &&& 0 <= k < input.len()
    &&& forall|m: int| 0 <= m < k ==> (#[trigger] input[m]).name@ != input[k].name@
}

/// `symbol` is the first symbol of `input` with its name.
pub open spec fn is_first_of_name(input: Seq<Symbol>, symbol: Symbol) -> bool {
    exists|k: int| #[trigger] first_with_name(input, k) && input[k] == symbol
}

/// Some symbol of `output` has the name `name`.
pub open spec fn lists_name(output: Seq<Symbol>, name: Seq<char>) -> bool {
    exists|i: int| 0 <= i < output.len() && (#[trigger] output[i]).name@ == name
}

/// `output` holds, sorted by name, the first symbol of `input` with each name.
pub open spec fn first_of_each_name(input: Seq<Symbol>, output: Seq<Symbol>) -> bool {
    &&& forall|i: int, j: int|
        0 <= i < j < output.len() ==> text_less(
            (#[trigger] output[i]).name@,
            (#[trigger] output[j]).name@,
        )
    &&& forall|i: int| 0 <= i < output.len() ==> #[trigger] is_first_of_name(input, output[i])
    &&& forall|k: int| 0 <= k < input.len() ==> #[trigger] lists_name(output, input[k].name@)
}

/// The symbol that the first declaration of `id` among `occurrences` describes, if any.
pub fn symbol_for(id: SymbolId, occurrences: &[Occurrence]) -> (symbol: Option<Symbol>)
    ensures
        symbol == declared_symbol(id, occurrences@),
{
    let mut k: usize = 0;
    while k < occurrences.len()
        invariant
            k <= occurrences@.len(),
            first_declaration_from(occurrences@, id, k as nat) == first_declaration_from(
                occurrences@,
                id,
                0,
            ),
        decreases occurrences@.len() - k,
    {
        let occurrence = &occurrences[k];
        if occurrence.id == id && occurrence.role == OccurrenceRole::Declaration {
            let detail = match &occurrence.detail {
                Some(text) => Some(text.clone()),
                None => None,
            };
            return Some(
                Symbol {
                    id: occurrence.id,
                    name: occurrence.name.clone(),
                    kind: occurrence.kind,
                    detail,
                    span: Some(occurrence.span),
                },
            );
        }
        k = k + 1;
    }
    None
}

/// The declared symbols of `ids`, in order, leaving out those that nothing declares.
pub fn top_level_symbols(ids: &Vec<SymbolId>, occurrences: &Vec<Occurrence>) -> (symbols: Vec<Symbol>)
    ensures
        symbols@ == declared_symbols(ids@, occurrences@),
{
    let mut symbols: Vec<Symbol> = Vec::new();
    let mut k: usize = 0;
    while k < ids.len()
        invariant
            k <= ids@.len(),
            symbols@ == declared_symbols(ids@.take(k as int), occurrences@),
        decreases ids@.len() - k,
    {
        proof {
            assert(ids@.take(k + 1).drop_last() =~= ids@.take(k as int));
        }
        match symbol_for(ids[k], occurrences.as_slice()) {
            Some(symbol) => symbols.push(symbol),
            None => {},
        }
        k = k + 1;
    }
    proof {
        assert(ids@.take(ids@.len() as int) =~= ids@);
    }
    symbols
}

/// The symbols of `symbols` that belong in the outline of `file`, in order.
pub fn document_symbols_in(symbols: &Vec<Symbol>, file: Option<FileId>) -> (selected: Vec<Symbol>)
    ensures
        selected@ == document_symbols_of(symbols@, file),
{
    let mut selected: Vec<Symbol> = Vec::new();
    let mut k: usize = 0;
    while k < symbols.len()
        invariant
            k <= symbols@.len(),
            selected@ == document_symbols_of(symbols@.take(k as int), file),
        decreases symbols@.len() - k,
    {
        proof {
            assert(symbols@.take(k + 1).drop_last() =~= symbols@.take(k as int));
        }
        let symbol = &symbols[k];
        let keep = match file {
            None => true,
            Some(file) => match symbol.span {
                Some(span) => span.file == file,
                None => false,
            },
        };
        if keep {
            selected.push(copy_symbol(symbol));
        }
        k = k + 1;
    }
    proof {
        assert(symbols@.take(symbols@.len() as int) =~= symbols@);
    }
    selected
}

/// The view of an optional set of visible files.
pub open spec fn visible_view(visible: Option<&HashSet<u32>>) -> Option<Set<u32>> {
    match visible {
        Some(visible) => Some(visible@),
        None => None,
    }
}

/// The symbols of `symbols` offered for completion in `file`, in order.
pub fn offered_in(
    symbols: &Vec<Symbol>,
    file: Option<FileId>,
    visible: Option<&HashSet<u32>>,
) -> (selected: Vec<Symbol>)
    ensures
        selected@ == offered_symbols(symbols@, file, visible_view(visible)),
{
    let mut selected: Vec<Symbol> = Vec::new();
    let mut k: usize = 0;
    while k < symbols.len()
        invariant
            k <= symbols@.len(),
            selected@ == offered_symbols(symbols@.take(k as int), file, visible_view(visible)),
        decreases symbols@.len() - k,
    {
        proof {
            assert(symbols@.take(k + 1).drop_last() =~= symbols@.take(k as int));
        }
        let symbol = &symbols[k];
        let keep = match symbol.span {
            None => false,
            Some(span) => match file {
                None => true,
                Some(file) => {
                    if span.file == file {
                        true
                    } else {
                        let seen = match visible {
                            Some(visible) => visible.contains(&span.file.0),
                            None => false,
                        };
                        let mut name: Vec<char> = Vec::new();
                        push_str(&mut name, symbol.name.as_str());
                        seen && !(name.len() > 0 && name[0] == '_')
                    }
                },
            },
        };
        if keep {
            selected.push(copy_symbol(symbol));
        }
        k = k + 1;
    }
    proof {
        assert(symbols@.take(symbols@.len() as int) =~= symbols@);
    }
    selected
}

proof fn lemma_first_in_longer(prefix: Seq<Symbol>, item: Symbol, symbol: Symbol)
    requires
        is_first_of_name(prefix, symbol),
    ensures
        is_first_of_name(prefix.push(item), symbol),
{
    let next = prefix.push(item);
    let m = choose|m: int| #[trigger] first_with_name(prefix, m) && prefix[m] == symbol;
    assert(next[m] == prefix[m]);
    assert forall|j: int| 0 <= j < m implies (#[trigger] next[j]).name@ != next[m].name@ by {
        assert(next[j] == prefix[j]);
        assert(prefix[j].name@ != prefix[m].name@);
    }
    assert(first_with_name(next, m));
}

proof fn lemma_keep_existing(prefix: Seq<Symbol>, output: Seq<Symbol>, item: Symbol, p: int)
    requires
        first_of_each_name(prefix, output),
        0 <= p < output.len(),
        output[p].name@ == item.name@,
    ensures
        first_of_each_name(prefix.push(item), output),
{
    let next = prefix.push(item);
    assert forall|i: int| 0 <= i < output.len() implies #[trigger] is_first_of_name(next, output[i]) by {
        assert(is_first_of_name(prefix, output[i]));
        lemma_first_in_longer(prefix, item, output[i]);
    }
    assert forall|m: int| 0 <= m < next.len() implies #[trigger] lists_name(output, next[m].name@) by {
        if m < prefix.len() {
            assert(next[m] == prefix[m]);
            assert(lists_name(output, prefix[m].name@));
        } else {
            assert(output[p].name@ == next[m].name@);
        }
    }
}

proof fn lemma_insert_new(prefix: Seq<Symbol>, output: Seq<Symbol>, item: Symbol, p: int)
    requires
        first_of_each_name(prefix, output),
        0 <= p <= output.len(),
        forall|q: int| 0 <= q < p ==> text_less((#[trigger] output[q]).name@, item.name@),
        forall|q: int| p <= q < output.len() ==> text_less(item.name@, (#[trigger] output[q]).name@),
    ensures
        first_of_each_name(prefix.push(item), output.insert(p, item)),
{
    let next = prefix.push(item);
    let k = prefix.len() as int;
    let result = output.insert(p, item);
    output.insert_ensures(p, item);
    lemma_text_less_irreflexive(item.name@);
    assert forall|q: int| 0 <= q < output.len() implies (#[trigger] output[q]).name@ != item.name@ by {
        if q < p {
            assert(text_less(output[q].name@, item.name@));
        } else {
            assert(text_less(item.name@, output[q].name@));
        }
    }
    assert forall|m: int| 0 <= m < k implies (#[trigger] next[m]).name@ != item.name@ by {
        assert(next[m] == prefix[m]);
        assert(lists_name(output, prefix[m].name@));
        let i = choose|i: int| 0 <= i < output.len() && (#[trigger] output[i]).name@ == prefix[m].name@;
        assert(output[i].name@ != item.name@);
    }
    assert forall|i: int, j: int| 0 <= i < j < result.len() implies text_less(
        (#[trigger] result[i]).name@,
        (#[trigger] result[j]).name@,
    ) by {
        if i > p {
            assert(result[i] == output[i - 1]);
            assert(result[j] == output[j - 1]);
        } else if i == p {
            assert(result[j] == output[j - 1]);
        } else if j > p {
            assert(result[i] == output[i]);
            assert(result[j] == output[j - 1]);
            assert(text_less(output[i].name@, item.name@));
            lemma_text_less_transitive(output[i].name@, item.name@, output[j - 1].name@);
        } else {
            assert(result[i] == output[i]);
        }
    }
    assert(next[k] == item);
    assert(first_with_name(next, k));
    assert forall|i: int| 0 <= i < result.len() implies #[trigger] is_first_of_name(next, result[i]) by {
        if i == p {
            assert(first_with_name(next, k) && next[k] == result[i]);
        } else {
            let old_i = if i < p { i } else { i - 1 };
            assert(result[i] == output[old_i]);
            assert(is_first_of_name(prefix, output[old_i]));
            lemma_first_in_longer(prefix, item, output[old_i]);
        }
    }
    assert forall|m: int| 0 <= m < next.len() implies #[trigger] lists_name(result, next[m].name@) by {
        if m < k {
            assert(next[m] == prefix[m]);
            assert(lists_name(output, prefix[m].name@));
            let i = choose|i: int| 0 <= i < output.len() && (#[trigger] output[i]).name@ == prefix[m].name@;
            if i < p {
                assert(result[i] == output[i]);
            } else {
                assert(result[i + 1] == output[i]);
            }
        } else {
            assert(result[p] == item);
        }
    }
}

/// Adds `symbol` at its place by name unless a symbol of the same name is there already.
fn add_first_of_name(
    output: &mut Vec<Symbol>,
    names: &mut Vec<Vec<char>>,
    symbol: &Symbol,
    Ghost(prefix): Ghost<Seq<Symbol>>,
)
    requires
        old(names)@.len() == old(output)@.len(),
        forall|i: int| 0 <= i < old(names)@.len() ==> (#[trigger] old(names)@[i])@ == old(output)@[i].name@,
        first_of_each_name(prefix, old(output)@),
    ensures
        final(names)@.len() == final(output)@.len(),
        forall|i: int| 0 <= i < final(names)@.len() ==> (#[trigger] final(names)@[i])@ == final(output)@[i].name@,
        first_of_each_name(prefix.push(*symbol), final(output)@),
{
    let mut name: Vec<char> = Vec::new();
    push_str(&mut name, symbol.name.as_str());
    let mut position: usize = 0;
    while position < names.len() && text_before(&names[position], &name)
        invariant
            position <= names@.len(),
            names@.len() == output@.len(),
            forall|i: int| 0 <= i < names@.len() ==> (#[trigger] names@[i])@ == output@[i].name@,
            forall|q: int| 0 <= q < position ==> text_less((#[trigger] output@[q]).name@, name@),
        decreases names@.len() - position,
    {
        position = position + 1;
    }
    if position < names.len() && !text_before(&name, &names[position]) {
        proof {
            let p = position as int;
            if output@[p].name@ != name@ {
                lemma_text_less_total(output@[p].name@, name@);
            }
            lemma_keep_existing(prefix, output@, *symbol, p);
        }
        return;
    }
    let ghost previous = output@;
    let ghost previous_names = names@;
    proof {
        let p = position as int;
        assert forall|q: int| p <= q < previous.len() implies text_less(
            name@,
            (#[trigger] previous[q]).name@,
        ) by {
            if q > p {
                assert(text_less(previous[p].name@, previous[q].name@));
                lemma_text_less_transitive(name@, previous[p].name@, previous[q].name@);
            }
        }
        lemma_insert_new(prefix, previous, *symbol, p);
    }
    output.insert(position, copy_symbol(symbol));
    names.insert(position, name);
    proof {
        let p = position as int;
        previous_names.insert_ensures(p, names@[p]);
        previous.insert_ensures(p, *symbol);
        assert forall|i: int| 0 <= i < names@.len() implies (#[trigger] names@[i])@
            == output@[i].name@ by {
            if i > p {
                assert(names@[i] == previous_names[i - 1]);
                assert(output@[i] == previous[i - 1]);
            }
        }
    }
}

/// The first symbol of `input` with each name, sorted by name.
pub fn first_of_each_name_sorted(input: &Vec<Symbol>) -> (output: Vec<Symbol>)
    ensures
        first_of_each_name(input@, output@),
{
    let mut output: Vec<Symbol> = Vec::new();
    let mut names: Vec<Vec<char>> = Vec::new();
    let mut k: usize = 0;
    while k < input.len()
        invariant
            k <= input@.len(),
            names@.len() == output@.len(),
            forall|i: int| 0 <= i < names@.len() ==> (#[trigger] names@[i])@ == output@[i].name@,
            first_of_each_name(input@.take(k as int), output@),
        decreases input@.len() - k,
    {
        add_first_of_name(&mut output, &mut names, &input[k], Ghost(input@.take(k as int)));
        proof {
            assert(input@.take(k + 1) =~= input@.take(k as int).push(input@[k as int]));
        }
        k = k + 1;
    }
    proof {
        assert(input@.take(input@.len() as int) =~= input@);
    }
    output
}

} // verus!
