use std::collections::{HashMap, HashSet};

use vstd::prelude::*;

use crate::check::ast::{
    Binding, BodyItem, CaseArm, Expression, ExpressionBlock, ExpressionKind, LambdaBody, Pattern,
    Program, TopItem,
};
use crate::check::types::{name_of_type, type_name_text};
use crate::source::Span;
use crate::ast::{Name, Node};
use crate::text::{contains_part, push_str, string_from_chars, text_contains};

use crate::resolve::ValueId;
use crate::source::FileId;

use super::outline::{
    declared_symbols, document_symbols_in, document_symbols_of, first_of_each_name,
    first_of_each_name_sorted, offered_in, offered_symbols, sort_by_span, stably_sorted_by_span,
    top_level_symbols, visible_view,
};
use super::{Occurrence, OccurrenceRole, SemanticDocument, Symbol, SymbolId, SymbolKind};

verus! {

broadcast use vstd::std_specs::hash::group_hash_axioms;

/// What indexing one part of a checked program records, in order.
pub enum IndexEvent {
    /// The region has the named type.
    Region(Span, Seq<char>),
    /// The value has the named type.
    TypedValue(u32, Seq<char>),
    /// The value has the named type, unless a type is already recorded for it.
    FirstTypedValue(u32, Seq<char>),
    /// The value is a lambda parameter.
    Parameter(u32),
    /// The type is described by the text.
    TypeDetail(u32, Seq<char>),
}

/// What an index has recorded.
pub struct IndexView {
    pub value_types: Map<u32, Seq<char>>,
    pub type_details: Map<u32, Seq<char>>,
    pub parameters: Set<u32>,
    pub regions: Seq<(Span, Seq<char>)>,
    pub raw: Seq<RawOccurrence>,
    pub top_level: Seq<SymbolId>,
}

/// A name as the program writes it, before its symbol is followed to the value it aliases.
pub struct RawOccurrence {
    pub id: SymbolId,
    pub name: String,
    pub span: Span,
    pub role: OccurrenceRole,
}

pub open spec fn apply_event(view: IndexView, event: IndexEvent) -> IndexView {
    match event {
        IndexEvent::Region(span, name) => IndexView { regions: view.regions.push((span, name)), ..view },
        IndexEvent::TypedValue(id, name) => IndexView {
            value_types: view.value_types.insert(id, name),
            ..view
        },
        IndexEvent::FirstTypedValue(id, name) => if view.value_types.contains_key(id) {
            view
        } else {
            IndexView { value_types: view.value_types.insert(id, name), ..view }
        },
        IndexEvent::Parameter(id) => IndexView { parameters: view.parameters.insert(id), ..view },
        IndexEvent::TypeDetail(id, name) => IndexView {
            type_details: view.type_details.insert(id, name),
            ..view
        },
    }
}

pub open spec fn apply_events(view: IndexView, events: Seq<IndexEvent>) -> IndexView
    decreases events.len(),
{
    if events.len() == 0 {
        view
    } else {
        apply_event(apply_events(view, events.drop_last()), events.last())
    }
}

proof fn lemma_apply_append(view: IndexView, a: Seq<IndexEvent>, b: Seq<IndexEvent>)
    ensures
        apply_events(view, a + b) == apply_events(apply_events(view, a), b),
    decreases b.len(),
{
    if b.len() == 0 {
        assert(a + b =~= a);
    } else {
        assert((a + b).drop_last() =~= a + b.drop_last());
        lemma_apply_append(view, a, b.drop_last());
    }
}

proof fn lemma_apply_one(view: IndexView, a: IndexEvent)
    ensures
        apply_events(view, seq![a]) == apply_event(view, a),
{
    assert(seq![a].drop_last() =~= Seq::<IndexEvent>::empty());
    assert(apply_events(view, Seq::<IndexEvent>::empty()) == view);
}

proof fn lemma_apply_two(view: IndexView, a: IndexEvent, b: IndexEvent)
    ensures
        apply_events(view, seq![a, b]) == apply_event(apply_event(view, a), b),
{
    lemma_apply_one(view, a);
    assert(seq![a, b].drop_last() =~= seq![a]);
}

proof fn lemma_apply_three(view: IndexView, a: IndexEvent, b: IndexEvent, c: IndexEvent)
    ensures
        apply_events(view, seq![a, b, c]) == apply_event(apply_event(apply_event(view, a), b), c),
{
    lemma_apply_two(view, a, b);
    assert(seq![a, b, c].drop_last() =~= seq![a, b]);
}

/// Following the alias links from `id` ends, within `fuel` links, at `root`.
pub open spec fn alias_root(aliases: Map<u32, u32>, id: u32, fuel: nat) -> Option<u32>
    decreases fuel,
{
    if !aliases.contains_key(id) {
        Some(id)
    } else if fuel == 0 {
        None
    } else {
        alias_root(aliases, aliases[id], (fuel - 1) as nat)
    }
}

/// The chain of alias links from `id` ends.
pub open spec fn chain_ends(aliases: Map<u32, u32>, id: u32) -> bool {
    exists|fuel: nat| #[trigger] alias_root(aliases, id, fuel) is Some
}

/// Every chain of alias links ends.
pub open spec fn chains_end(aliases: Map<u32, u32>) -> bool {
    forall|id: u32| #[trigger] chain_ends(aliases, id)
}

/// The value that `id` aliases in the end.
pub open spec fn canonical(aliases: Map<u32, u32>, id: u32) -> u32 {
    alias_root(aliases, id, choose|fuel: nat| #[trigger] alias_root(aliases, id, fuel) is Some)->0
}

proof fn lemma_alias_root_unique(aliases: Map<u32, u32>, id: u32, a: nat, b: nat)
    requires
        alias_root(aliases, id, a) is Some,
        alias_root(aliases, id, b) is Some,
    ensures
        alias_root(aliases, id, a) == alias_root(aliases, id, b),
    decreases a,
{
    if aliases.contains_key(id) && a > 0 && b > 0 {
        lemma_alias_root_unique(aliases, aliases[id], (a - 1) as nat, (b - 1) as nat);
    }
}

proof fn lemma_alias_root_is_unaliased(aliases: Map<u32, u32>, id: u32, fuel: nat)
    requires
        alias_root(aliases, id, fuel) is Some,
    ensures
        !aliases.contains_key(alias_root(aliases, id, fuel)->0),
    decreases fuel,
{
    if aliases.contains_key(id) && fuel > 0 {
        lemma_alias_root_is_unaliased(aliases, aliases[id], (fuel - 1) as nat);
    }
}

/// Following a value's aliases to the end reaches a value that aliases nothing, so following
/// its aliases again stays there.
pub proof fn lemma_canonical_is_final(aliases: Map<u32, u32>, id: u32)
    requires
        chains_end(aliases),
    ensures
        !aliases.contains_key(canonical(aliases, id)),
        canonical(aliases, canonical(aliases, id)) == canonical(aliases, id),
{
    assert(chain_ends(aliases, id));
    let fuel = choose|fuel: nat| #[trigger] alias_root(aliases, id, fuel) is Some;
    lemma_alias_root_is_unaliased(aliases, id, fuel);
    let root = canonical(aliases, id);
    assert(alias_root(aliases, root, 0) is Some);
    let again = choose|f: nat| #[trigger] alias_root(aliases, root, f) is Some;
    assert(alias_root(aliases, root, again) == Some(root));
}

pub open spec fn pattern_events(aliases: Map<u32, u32>, pattern: Pattern) -> Seq<IndexEvent>
    decreases pattern, 0nat,
{
    match pattern {
        Pattern::Binding { binding, ty } => seq![
            IndexEvent::TypedValue(canonical(aliases, binding.id.0), type_name_text(ty)),
            IndexEvent::Region(binding.name.span, type_name_text(ty)),
        ],
        Pattern::Wildcard { ty, span } => seq![IndexEvent::Region(span, type_name_text(ty))],
        Pattern::Product { elements, ty, span } => seq![
            IndexEvent::Region(span, type_name_text(ty)),
        ] + patterns_events(aliases, elements@, 0),
    }
}

pub open spec fn patterns_events(aliases: Map<u32, u32>, patterns: Seq<Pattern>, from: nat) -> Seq<IndexEvent>
    decreases patterns, patterns.len() - from,
{
    if from >= patterns.len() {
        seq![]
    } else {
        pattern_events(aliases, patterns[from as int]) + patterns_events(aliases, patterns, from + 1)
    }
}

/// What indexing an expression records: its region and type, then what its parts record.
pub open spec fn expression_events(aliases: Map<u32, u32>, expression: Expression) -> Seq<IndexEvent>
    decreases expression, 0nat,
{
    let name = type_name_text(expression.ty);
    seq![IndexEvent::Region(expression.span, name)] + kind_events(aliases, expression.kind, name)
}

/// What the parts of an expression of the type named `name` record.
pub open spec fn kind_events(aliases: Map<u32, u32>, kind: ExpressionKind, name: Seq<char>) -> Seq<IndexEvent>
    decreases kind, 0nat,
{
    match kind {
        ExpressionKind::Reference(reference) => seq![
            IndexEvent::FirstTypedValue(canonical(aliases, reference.id.0), name),
        ],
        ExpressionKind::Product(elements) => expressions_events(aliases, elements@, 0),
        ExpressionKind::Parenthesized(inner) => expression_events(aliases, *inner),
        ExpressionKind::Lambda(lambda) => captures_events(aliases, lambda.captures@, 0)
            + parameters_events(aliases, lambda.parameters@, 0) + lambda_body_events(
            aliases,
            lambda.body,
        ),
        ExpressionKind::Call { callee, argument } => expression_events(aliases, *callee)
            + expression_events(aliases, *argument),
        ExpressionKind::SymbolLength { value } => expression_events(aliases, *value),
        ExpressionKind::Memory { argument, .. } => expression_events(aliases, *argument),
        ExpressionKind::NumericConversion { value } => expression_events(aliases, *value),
        ExpressionKind::SumInjection { value, .. } => expression_events(aliases, *value),
        ExpressionKind::SymbolAt { argument } => expression_events(aliases, *argument),
        ExpressionKind::If { condition, then_branch, else_branch } => expression_events(
            aliases,
            *condition,
        ) + block_events(aliases, then_branch) + block_events(aliases, else_branch),
        ExpressionKind::Case { scrutinee, arms } => expression_events(aliases, *scrutinee)
            + arms_events(aliases, arms@, 0),
        ExpressionKind::Unary { operand, .. } => expression_events(aliases, *operand),
        ExpressionKind::Binary { left, right, .. } => expression_events(aliases, *left)
            + expression_events(aliases, *right),
        _ => seq![],
    }
}

pub open spec fn expressions_events(aliases: Map<u32, u32>, values: Seq<Expression>, from: nat) -> Seq<IndexEvent>
    decreases values, values.len() - from,
{
    if from >= values.len() {
        seq![]
    } else {
        expression_events(aliases, values[from as int]) + expressions_events(aliases, values, from + 1)
    }
}

pub open spec fn captures_events(
    aliases: Map<u32, u32>,
    captures: Seq<crate::check::ast::Capture>,
    from: nat,
) -> Seq<IndexEvent>
    decreases captures.len() - from,
{
    if from >= captures.len() {
        seq![]
    } else {
        seq![
            IndexEvent::TypedValue(
                canonical(aliases, captures[from as int].binding.id.0),
                type_name_text(captures[from as int].ty),
            ),
        ] + captures_events(aliases, captures, from + 1)
    }
}

pub open spec fn parameters_events(
    aliases: Map<u32, u32>,
    parameters: Seq<crate::check::ast::Parameter>,
    from: nat,
) -> Seq<IndexEvent>
    decreases parameters.len() - from,
{
    if from >= parameters.len() {
        seq![]
    } else {
        let parameter = parameters[from as int];
        let id = canonical(aliases, parameter.binding.id.0);
        let name = type_name_text(parameter.ty);
        seq![
            IndexEvent::Parameter(id),
            IndexEvent::TypedValue(id, name),
            IndexEvent::Region(parameter.span, name),
        ] + parameters_events(aliases, parameters, from + 1)
    }
}

pub open spec fn lambda_body_events(aliases: Map<u32, u32>, body: LambdaBody) -> Seq<IndexEvent>
    decreases body, 0nat,
{
    items_events(aliases, body.items@, 0) + expression_events(aliases, *body.result)
}

pub open spec fn block_events(aliases: Map<u32, u32>, block: ExpressionBlock) -> Seq<IndexEvent>
    decreases block, 0nat,
{
    items_events(aliases, block.items@, 0) + expression_events(aliases, *block.result)
}

pub open spec fn binding_events(aliases: Map<u32, u32>, binding: Binding) -> Seq<IndexEvent>
    decreases binding, 0nat,
{
    pattern_events(aliases, binding.pattern) + expression_events(aliases, binding.value)
}

pub open spec fn item_events(aliases: Map<u32, u32>, item: BodyItem) -> Seq<IndexEvent>
    decreases item, 0nat,
{
    match item {
        BodyItem::Binding(binding) => binding_events(aliases, binding),
        BodyItem::Expression(expression) => expression_events(aliases, expression),
    }
}

pub open spec fn items_events(aliases: Map<u32, u32>, items: Seq<BodyItem>, from: nat) -> Seq<IndexEvent>
    decreases items, items.len() - from,
{
    if from >= items.len() {
        seq![]
    } else {
        item_events(aliases, items[from as int]) + items_events(aliases, items, from + 1)
    }
}

pub open spec fn arms_events(aliases: Map<u32, u32>, arms: Seq<CaseArm>, from: nat) -> Seq<IndexEvent>
    decreases arms, arms.len() - from,
{
    if from >= arms.len() {
        seq![]
    } else {
        pattern_events(aliases, arms[from as int].pattern) + block_events(
            aliases,
            arms[from as int].body,
        ) + arms_events(aliases, arms, from + 1)
    }
}

/// What indexing a top-level item records.
pub open spec fn top_events(aliases: Map<u32, u32>, item: TopItem) -> Seq<IndexEvent> {
    match item {
        TopItem::TypeAlias { binding, ty, .. } => seq![
            IndexEvent::TypeDetail(binding.id.0, type_name_text(ty)),
        ],
        TopItem::ExternalType { binding } => seq![
            IndexEvent::TypeDetail(binding.id.0, binding.name.text@),
        ],
        TopItem::Binding(binding) => binding_events(aliases, *binding),
        _ => seq![],
    }
}

/// What indexing the top-level items `items[from..]` records, in order.
pub open spec fn program_events(aliases: Map<u32, u32>, items: Seq<Node<TopItem>>, from: nat) -> Seq<IndexEvent>
    decreases items.len() - from,
{
    if from >= items.len() {
        seq![]
    } else {
        top_events(aliases, items[from as int].kind) + program_events(aliases, items, from + 1)
    }
}

/// The text between a function type's parameter and its result.
pub open spec fn function_arrow() -> Seq<char> {
    seq![' ', '-', '>', ' ']
}

/// The kind an editor shows for symbol `id`: a value whose recorded type is a function type is
/// a function.
pub open spec fn symbol_kind(view: IndexView, id: SymbolId) -> SymbolKind {
    match id {
        SymbolId::Type(_) => SymbolKind::Type,
        SymbolId::ExternalOperation(_) => SymbolKind::Function,
        SymbolId::Value(value) => if view.parameters.contains(value.0) {
            SymbolKind::Parameter
        } else if view.value_types.contains_key(value.0) && contains_part(
            view.value_types[value.0],
            function_arrow(),
        ) {
            SymbolKind::Function
        } else {
            SymbolKind::Value
        },
    }
}

/// Every symbol is shown by what it is: a type as a type, an external operation as a function,
/// a lambda parameter as a parameter, and any other value as a value or a function, a value
/// without a recorded type as a value.
pub proof fn lemma_symbol_kind_by_symbol(view: IndexView, id: SymbolId)
    ensures
        match id {
            SymbolId::Type(_) => symbol_kind(view, id) == SymbolKind::Type,
            SymbolId::ExternalOperation(_) => symbol_kind(view, id) == SymbolKind::Function,
            SymbolId::Value(value) => {
                &&& view.parameters.contains(value.0) ==> symbol_kind(view, id)
                    == SymbolKind::Parameter
                &&& !view.parameters.contains(value.0) ==> (symbol_kind(view, id)
                    == SymbolKind::Value || symbol_kind(view, id) == SymbolKind::Function)
                &&& !view.parameters.contains(value.0) && !view.value_types.contains_key(value.0)
                    ==> symbol_kind(view, id) == SymbolKind::Value
            },
        },
{
}

/// The signature of the first external operation `operation` among `items[from..]`.
pub open spec fn operation_detail(items: Seq<Node<TopItem>>, operation: u32, from: nat) -> Option<Seq<char>>
    decreases items.len() - from,
{
    if from >= items.len() {
        None
    } else {
        match items[from as int].kind {
            TopItem::ExternalOperation { id, parameter, result, .. } => if id.0 == operation {
                Some(type_name_text(parameter) + function_arrow() + type_name_text(result))
            } else {
                operation_detail(items, operation, from + 1)
            },
            _ => operation_detail(items, operation, from + 1),
        }
    }
}

/// The detail an editor shows for symbol `id`: the description of a type, the type of a value,
/// the signature of an external operation.
pub open spec fn symbol_detail(view: IndexView, items: Seq<Node<TopItem>>, id: SymbolId) -> Option<Seq<char>> {
    match id {
        SymbolId::Type(ty) => if view.type_details.contains_key(ty.0) {
            Some(view.type_details[ty.0])
        } else {
            None
        },
        SymbolId::Value(value) => if view.value_types.contains_key(value.0) {
            Some(view.value_types[value.0])
        } else {
            None
        },
        SymbolId::ExternalOperation(operation) => operation_detail(items, operation.0, 0),
    }
}

/// The text an optional string holds.
pub open spec fn optional_text(text: Option<String>) -> Option<Seq<char>> {
    match text {
        Some(text) => Some(text@),
        None => None,
    }
}

/// The symbol that `id` stands for once a value is followed to the value it aliases.
pub open spec fn canonical_symbol(aliases: Map<u32, u32>, id: SymbolId) -> SymbolId {
    match id {
        SymbolId::Value(value) => SymbolId::Value(ValueId(canonical(aliases, value.0))),
        other => other,
    }
}

/// `occurrence` is what `raw` becomes: its symbol followed through aliases, with the kind and
/// detail of that symbol.
pub open spec fn finished_occurrence(
    view: IndexView,
    aliases: Map<u32, u32>,
    items: Seq<Node<TopItem>>,
    raw: RawOccurrence,
    occurrence: Occurrence,
) -> bool {
    let id = canonical_symbol(aliases, raw.id);
    &&& occurrence.id == id
    &&& occurrence.name == raw.name
    &&& occurrence.span == raw.span
    &&& occurrence.role == raw.role
    &&& occurrence.kind == symbol_kind(view, id)
    &&& optional_text(occurrence.detail) == symbol_detail(view, items, id)
}

/// What the checked program tells an editor: the types of values and regions, the parameters,
/// and the descriptions of types.
pub struct Index {
    aliases: HashMap<u32, u32>,
    value_types: HashMap<u32, String>,
    type_details: HashMap<u32, String>,
    parameters: HashSet<u32>,
    typed_regions: Vec<(Span, String)>,
    raw_occurrences: Vec<RawOccurrence>,
    top_level: Vec<SymbolId>,
}

pub open spec fn texts_of(map: Map<u32, String>) -> Map<u32, Seq<char>> {
    Map::new(|k: u32| map.contains_key(k), |k: u32| map[k]@)
}

pub open spec fn regions_of(regions: Seq<(Span, String)>) -> Seq<(Span, Seq<char>)> {
    regions.map_values(|region: (Span, String)| (region.0, region.1@))
}

impl Index {
    pub closed spec fn spec_aliases(&self) -> Map<u32, u32> {
        self.aliases@
    }

    /// What the index has recorded.
    pub closed spec fn view(&self) -> IndexView {
        IndexView {
            value_types: texts_of(self.value_types@),
            type_details: texts_of(self.type_details@),
            parameters: self.parameters@,
            regions: regions_of(self.typed_regions@),
            raw: self.raw_occurrences@,
            top_level: self.top_level@,
        }
    }

    /// An index whose value aliases are `aliases` and that knows only the descriptions of the
    /// predefined types, `predefined`.
    pub fn new(aliases: HashMap<u32, u32>, predefined: HashMap<u32, String>) -> (index: Index)
        ensures
            index.spec_aliases() == aliases@,
            index.view().value_types == Map::<u32, Seq<char>>::empty(),
            index.view().type_details == texts_of(predefined@),
            index.view().parameters == Set::<u32>::empty(),
            index.view().regions == Seq::<(Span, Seq<char>)>::empty(),
            index.view().raw == Seq::<RawOccurrence>::empty(),
            index.view().top_level == Seq::<SymbolId>::empty(),
    {
        let index = Index {
            aliases,
            value_types: HashMap::new(),
            type_details: predefined,
            parameters: HashSet::new(),
            typed_regions: Vec::new(),
            raw_occurrences: Vec::new(),
            top_level: Vec::new(),
        };
        assert(texts_of(index.value_types@) =~= Map::empty());
        assert(regions_of(index.typed_regions@) =~= Seq::empty());
        index
    }

    /// The value that `id` aliases in the end.
    pub fn canonical_value(&self, id: u32) -> (root: u32)
        requires
            chains_end(self.spec_aliases()),
        ensures
            root == canonical(self.spec_aliases(), id),
    {
        let ghost aliases = self.aliases@;
        assert(chain_ends(aliases, id));
        let ghost fuel = choose|fuel: nat| #[trigger] alias_root(aliases, id, fuel) is Some;
        assert(alias_root(aliases, id, fuel) is Some);
        let mut current = id;
        let ghost mut left = fuel;
        while self.aliases.contains_key(&current)
            invariant
                aliases == self.aliases@,
                alias_root(aliases, current, left) is Some,
                alias_root(aliases, current, left) == alias_root(aliases, id, fuel),
            decreases left,
        {
            current = *self.aliases.get(&current).unwrap();
            proof {
                left = (left - 1) as nat;
            }
        }
        proof {
            lemma_alias_root_unique(aliases, id, fuel, choose|f: nat| #[trigger] alias_root(aliases, id, f) is Some);
        }
        current
    }

    fn record_region(&mut self, span: Span, name: String)
        ensures
            final(self).spec_aliases() == old(self).spec_aliases(),
            final(self).view() == apply_event(old(self).view(), IndexEvent::Region(span, name@)),
    {
        self.typed_regions.push((span, name));
        proof {
            assert(regions_of(self.typed_regions@) =~= regions_of(old(self).typed_regions@).push((span, name@)));
        }
    }

    fn record_value(&mut self, id: u32, name: String)
        ensures
            final(self).spec_aliases() == old(self).spec_aliases(),
            final(self).view() == apply_event(old(self).view(), IndexEvent::TypedValue(id, name@)),
    {
        let ghost text = name@;
        self.value_types.insert(id, name);
        proof {
            assert(texts_of(self.value_types@) =~= texts_of(old(self).value_types@).insert(id, text));
        }
    }

    fn record_first_value(&mut self, id: u32, name: String)
        ensures
            final(self).spec_aliases() == old(self).spec_aliases(),
            final(self).view() == apply_event(old(self).view(), IndexEvent::FirstTypedValue(id, name@)),
    {
        let ghost text = name@;
        if !self.value_types.contains_key(&id) {
            self.value_types.insert(id, name);
            proof {
                assert(texts_of(self.value_types@) =~= texts_of(old(self).value_types@).insert(id, text));
            }
        }
    }

    fn record_parameter(&mut self, id: u32)
        ensures
            final(self).spec_aliases() == old(self).spec_aliases(),
            final(self).view() == apply_event(old(self).view(), IndexEvent::Parameter(id)),
    {
        self.parameters.insert(id);
    }

    fn record_type_detail(&mut self, id: u32, name: String)
        ensures
            final(self).spec_aliases() == old(self).spec_aliases(),
            final(self).view() == apply_event(old(self).view(), IndexEvent::TypeDetail(id, name@)),
    {
        let ghost text = name@;
        self.type_details.insert(id, name);
        proof {
            assert(texts_of(self.type_details@) =~= texts_of(old(self).type_details@).insert(id, text));
        }
    }

    /// Records what a pattern tells: the type of each value it binds and of each of its regions.
    fn collect_checked_pattern(&mut self, pattern: &Pattern)
        requires
            chains_end(old(self).spec_aliases()),
        ensures
            final(self).spec_aliases() == old(self).spec_aliases(),
            final(self).view() == apply_events(
                old(self).view(),
                pattern_events(old(self).spec_aliases(), *pattern),
            ),
        decreases pattern,
    {
        let ghost aliases = self.spec_aliases();
        let ghost start = self.view();
        match pattern {
            Pattern::Binding { binding, ty } => {
                let id = self.canonical_value(binding.id.0);
                self.record_value(id, name_of_type(ty));
                self.record_region(binding.name.span, name_of_type(ty));
                proof {
                    lemma_apply_two(
                        start,
                        IndexEvent::TypedValue(id, type_name_text(*ty)),
                        IndexEvent::Region(binding.name.span, type_name_text(*ty)),
                    );
                }
            },
            Pattern::Wildcard { ty, span } => {
                self.record_region(*span, name_of_type(ty));
                proof {
                    lemma_apply_one(start, IndexEvent::Region(*span, type_name_text(*ty)));
                }
            },
            Pattern::Product { elements, ty, span } => {
                self.record_region(*span, name_of_type(ty));
                self.collect_checked_patterns(elements);
                proof {
                    let first = IndexEvent::Region(*span, type_name_text(*ty));
                    lemma_apply_one(start, first);
                    lemma_apply_append(start, seq![first], patterns_events(aliases, elements@, 0));
                }
            },
        }
    }

    fn collect_checked_patterns(&mut self, patterns: &Vec<Pattern>)
        requires
            chains_end(old(self).spec_aliases()),
        ensures
            final(self).spec_aliases() == old(self).spec_aliases(),
            final(self).view() == apply_events(
                old(self).view(),
                patterns_events(old(self).spec_aliases(), patterns@, 0),
            ),
        decreases patterns,
    {
        let ghost aliases = self.spec_aliases();
        let ghost start = self.view();
        let mut k: usize = 0;
        while k < patterns.len()
            invariant
                k <= patterns@.len(),
                self.spec_aliases() == aliases,
                chains_end(aliases),
                apply_events(self.view(), patterns_events(aliases, patterns@, k as nat))
                    == apply_events(start, patterns_events(aliases, patterns@, 0)),
            decreases patterns@.len() - k,
        {
            let ghost before = self.view();
            self.collect_checked_pattern(&patterns[k]);
            proof {
                lemma_apply_append(
                    before,
                    pattern_events(aliases, patterns@[k as int]),
                    patterns_events(aliases, patterns@, (k + 1) as nat),
                );
            }
            k = k + 1;
        }
    }

    /// Records what an expression tells: the type of its region, then what its parts tell.
    fn collect_checked_expression(&mut self, expression: &Expression)
        requires
            chains_end(old(self).spec_aliases()),
        ensures
            final(self).spec_aliases() == old(self).spec_aliases(),
            final(self).view() == apply_events(
                old(self).view(),
                expression_events(old(self).spec_aliases(), *expression),
            ),
        decreases expression,
    {
        let ghost aliases = self.spec_aliases();
        let ghost start = self.view();
        let name = name_of_type(&expression.ty);
        self.record_region(expression.span, name.clone());
        self.collect_kind(&expression.kind, name);
        proof {
            let first = IndexEvent::Region(expression.span, type_name_text(expression.ty));
            lemma_apply_one(start, first);
            lemma_apply_append(
                start,
                seq![first],
                kind_events(aliases, expression.kind, type_name_text(expression.ty)),
            );
        }
    }

    fn collect_checked_expressions(&mut self, values: &Vec<Expression>)
        requires
            chains_end(old(self).spec_aliases()),
        ensures
            final(self).spec_aliases() == old(self).spec_aliases(),
            final(self).view() == apply_events(
                old(self).view(),
                expressions_events(old(self).spec_aliases(), values@, 0),
            ),
        decreases values,
    {
        let ghost aliases = self.spec_aliases();
        let ghost start = self.view();
        let mut k: usize = 0;
        while k < values.len()
            invariant
                k <= values@.len(),
                self.spec_aliases() == aliases,
                chains_end(aliases),
                apply_events(self.view(), expressions_events(aliases, values@, k as nat))
                    == apply_events(start, expressions_events(aliases, values@, 0)),
            decreases values@.len() - k,
        {
            let ghost before = self.view();
            self.collect_checked_expression(&values[k]);
            proof {
                lemma_apply_append(
                    before,
                    expression_events(aliases, values@[k as int]),
                    expressions_events(aliases, values@, (k + 1) as nat),
                );
            }
            k = k + 1;
        }
    }

    /// Records what the parts of an expression whose type is named `name` tell.
    #[verifier::rlimit(40)]
    fn collect_kind(&mut self, kind: &ExpressionKind, name: String)
        requires
            chains_end(old(self).spec_aliases()),
        ensures
            final(self).spec_aliases() == old(self).spec_aliases(),
            final(self).view() == apply_events(
                old(self).view(),
                kind_events(old(self).spec_aliases(), *kind, name@),
            ),
        decreases kind,
    {
        let ghost aliases = self.spec_aliases();
        let ghost start = self.view();
        match kind {
            ExpressionKind::Reference(reference) => {
                let id = self.canonical_value(reference.id.0);
                let ghost text = name@;
                self.record_first_value(id, name);
                proof {
                    lemma_apply_one(start, IndexEvent::FirstTypedValue(id, text));
                }
            },
            ExpressionKind::Product(elements) => self.collect_checked_expressions(elements),
            ExpressionKind::Parenthesized(inner) => self.collect_checked_expression(inner),
            ExpressionKind::Lambda(lambda) => self.collect_lambda(lambda),
            ExpressionKind::Call { callee, argument } => {
                self.collect_checked_expression(callee);
                self.collect_checked_expression(argument);
                proof {
                    lemma_apply_append(
                        start,
                        expression_events(aliases, **callee),
                        expression_events(aliases, **argument),
                    );
                }
            },
            ExpressionKind::SymbolLength { value } => self.collect_checked_expression(value),
            ExpressionKind::Memory { argument, .. } => self.collect_checked_expression(argument),
            ExpressionKind::NumericConversion { value } => self.collect_checked_expression(value),
            ExpressionKind::SumInjection { value, .. } => self.collect_checked_expression(value),
            ExpressionKind::SymbolAt { argument } => self.collect_checked_expression(argument),
            ExpressionKind::If { condition, then_branch, else_branch } => {
                self.collect_checked_expression(condition);
                self.collect_block(then_branch);
                self.collect_block(else_branch);
                proof {
                    let c = expression_events(aliases, **condition);
                    let t = block_events(aliases, *then_branch);
                    let e = block_events(aliases, *else_branch);
                    lemma_apply_append(start, c, t);
                    lemma_apply_append(start, c + t, e);
                }
            },
            ExpressionKind::Case { scrutinee, arms } => {
                self.collect_checked_expression(scrutinee);
                self.collect_arms(arms);
                proof {
                    lemma_apply_append(
                        start,
                        expression_events(aliases, **scrutinee),
                        arms_events(aliases, arms@, 0),
                    );
                }
            },
            ExpressionKind::Unary { operand, .. } => self.collect_checked_expression(operand),
            ExpressionKind::Binary { left, right, .. } => {
                self.collect_checked_expression(left);
                self.collect_checked_expression(right);
                proof {
                    lemma_apply_append(
                        start,
                        expression_events(aliases, **left),
                        expression_events(aliases, **right),
                    );
                }
            },
            _ => {
                assert(kind_events(aliases, *kind, name@) =~= Seq::<IndexEvent>::empty());
            },
        }
    }

    /// Records what a lambda tells: the types of its captures, its parameters, then its body.
    fn collect_lambda(&mut self, lambda: &crate::check::ast::Lambda)
        requires
            chains_end(old(self).spec_aliases()),
        ensures
            final(self).spec_aliases() == old(self).spec_aliases(),
            final(self).view() == apply_events(
                old(self).view(),
                captures_events(old(self).spec_aliases(), lambda.captures@, 0) + parameters_events(
                    old(self).spec_aliases(),
                    lambda.parameters@,
                    0,
                ) + lambda_body_events(old(self).spec_aliases(), lambda.body),
            ),
        decreases lambda,
    {
        let ghost aliases = self.spec_aliases();
        let ghost start = self.view();
        self.collect_captures(&lambda.captures);
        self.collect_parameters(&lambda.parameters);
        self.collect_items(&lambda.body.items);
        self.collect_checked_expression(&lambda.body.result);
        proof {
            let c = captures_events(aliases, lambda.captures@, 0);
            let p = parameters_events(aliases, lambda.parameters@, 0);
            let i = items_events(aliases, lambda.body.items@, 0);
            let r = expression_events(aliases, *lambda.body.result);
            lemma_apply_append(start, c, p);
            lemma_apply_append(start, c + p, i);
            lemma_apply_append(start, c + p + i, r);
            assert(c + p + i + r =~= c + p + (i + r));
        }
    }

    fn collect_captures(&mut self, captures: &Vec<crate::check::ast::Capture>)
        requires
            chains_end(old(self).spec_aliases()),
        ensures
            final(self).spec_aliases() == old(self).spec_aliases(),
            final(self).view() == apply_events(
                old(self).view(),
                captures_events(old(self).spec_aliases(), captures@, 0),
            ),
    {
        let ghost aliases = self.spec_aliases();
        let ghost start = self.view();
        let mut k: usize = 0;
        while k < captures.len()
            invariant
                k <= captures@.len(),
                self.spec_aliases() == aliases,
                chains_end(aliases),
                apply_events(self.view(), captures_events(aliases, captures@, k as nat))
                    == apply_events(start, captures_events(aliases, captures@, 0)),
            decreases captures@.len() - k,
        {
            let ghost before = self.view();
            let capture = &captures[k];
            let id = self.canonical_value(capture.binding.id.0);
            self.record_value(id, name_of_type(&capture.ty));
            proof {
                let event = IndexEvent::TypedValue(id, type_name_text(capture.ty));
                lemma_apply_one(before, event);
                lemma_apply_append(
                    before,
                    seq![event],
                    captures_events(aliases, captures@, (k + 1) as nat),
                );
            }
            k = k + 1;
        }
    }

    fn collect_parameters(&mut self, parameters: &Vec<crate::check::ast::Parameter>)
        requires
            chains_end(old(self).spec_aliases()),
        ensures
            final(self).spec_aliases() == old(self).spec_aliases(),
            final(self).view() == apply_events(
                old(self).view(),
                parameters_events(old(self).spec_aliases(), parameters@, 0),
            ),
    {
        let ghost aliases = self.spec_aliases();
        let ghost start = self.view();
        let mut k: usize = 0;
        while k < parameters.len()
            invariant
                k <= parameters@.len(),
                self.spec_aliases() == aliases,
                chains_end(aliases),
                apply_events(self.view(), parameters_events(aliases, parameters@, k as nat))
                    == apply_events(start, parameters_events(aliases, parameters@, 0)),
            decreases parameters@.len() - k,
        {
            let ghost before = self.view();
            let parameter = &parameters[k];
            let id = self.canonical_value(parameter.binding.id.0);
            self.record_parameter(id);
            self.record_value(id, name_of_type(&parameter.ty));
            self.record_region(parameter.span, name_of_type(&parameter.ty));
            proof {
                let text = type_name_text(parameter.ty);
                let events = seq![
                    IndexEvent::Parameter(id),
                    IndexEvent::TypedValue(id, text),
                    IndexEvent::Region(parameter.span, text),
                ];
                lemma_apply_three(before, events[0], events[1], events[2]);
                assert(events =~= seq![events[0], events[1], events[2]]);
                lemma_apply_append(
                    before,
                    events,
                    parameters_events(aliases, parameters@, (k + 1) as nat),
                );
            }
            k = k + 1;
        }
    }

    fn collect_block(&mut self, block: &ExpressionBlock)
        requires
            chains_end(old(self).spec_aliases()),
        ensures
            final(self).spec_aliases() == old(self).spec_aliases(),
            final(self).view() == apply_events(
                old(self).view(),
                block_events(old(self).spec_aliases(), *block),
            ),
        decreases block,
    {
        let ghost aliases = self.spec_aliases();
        let ghost start = self.view();
        self.collect_items(&block.items);
        self.collect_checked_expression(&block.result);
        proof {
            lemma_apply_append(
                start,
                items_events(aliases, block.items@, 0),
                expression_events(aliases, *block.result),
            );
        }
    }

    fn collect_checked_binding(&mut self, binding: &Binding)
        requires
            chains_end(old(self).spec_aliases()),
        ensures
            final(self).spec_aliases() == old(self).spec_aliases(),
            final(self).view() == apply_events(
                old(self).view(),
                binding_events(old(self).spec_aliases(), *binding),
            ),
        decreases binding,
    {
        let ghost aliases = self.spec_aliases();
        let ghost start = self.view();
        self.collect_checked_pattern(&binding.pattern);
        self.collect_checked_expression(&binding.value);
        proof {
            lemma_apply_append(
                start,
                pattern_events(aliases, binding.pattern),
                expression_events(aliases, binding.value),
            );
        }
    }

    fn collect_item(&mut self, item: &BodyItem)
        requires
            chains_end(old(self).spec_aliases()),
        ensures
            final(self).spec_aliases() == old(self).spec_aliases(),
            final(self).view() == apply_events(
                old(self).view(),
                item_events(old(self).spec_aliases(), *item),
            ),
        decreases item,
    {
        match item {
            BodyItem::Binding(binding) => self.collect_checked_binding(binding),
            BodyItem::Expression(expression) => self.collect_checked_expression(expression),
        }
    }

    fn collect_items(&mut self, items: &Vec<BodyItem>)
        requires
            chains_end(old(self).spec_aliases()),
        ensures
            final(self).spec_aliases() == old(self).spec_aliases(),
            final(self).view() == apply_events(
                old(self).view(),
                items_events(old(self).spec_aliases(), items@, 0),
            ),
        decreases items,
    {
        let ghost aliases = self.spec_aliases();
        let ghost start = self.view();
        let mut k: usize = 0;
        while k < items.len()
            invariant
                k <= items@.len(),
                self.spec_aliases() == aliases,
                chains_end(aliases),
                apply_events(self.view(), items_events(aliases, items@, k as nat))
                    == apply_events(start, items_events(aliases, items@, 0)),
            decreases items@.len() - k,
        {
            let ghost before = self.view();
            self.collect_item(&items[k]);
            proof {
                lemma_apply_append(
                    before,
                    item_events(aliases, items@[k as int]),
                    items_events(aliases, items@, (k + 1) as nat),
                );
            }
            k = k + 1;
        }
    }

    fn collect_arms(&mut self, arms: &Vec<CaseArm>)
        requires
            chains_end(old(self).spec_aliases()),
        ensures
            final(self).spec_aliases() == old(self).spec_aliases(),
            final(self).view() == apply_events(
                old(self).view(),
                arms_events(old(self).spec_aliases(), arms@, 0),
            ),
        decreases arms,
    {
        let ghost aliases = self.spec_aliases();
        let ghost start = self.view();
        let mut k: usize = 0;
        while k < arms.len()
            invariant
                k <= arms@.len(),
                self.spec_aliases() == aliases,
                chains_end(aliases),
                apply_events(self.view(), arms_events(aliases, arms@, k as nat))
                    == apply_events(start, arms_events(aliases, arms@, 0)),
            decreases arms@.len() - k,
        {
            let ghost before = self.view();
            let arm = &arms[k];
            self.collect_checked_pattern(&arm.pattern);
            self.collect_block(&arm.body);
            proof {
                let p = pattern_events(aliases, arm.pattern);
                let b = block_events(aliases, arm.body);
                let rest = arms_events(aliases, arms@, (k + 1) as nat);
                lemma_apply_append(before, p, b);
                lemma_apply_append(before, p + b, rest);
            }
            k = k + 1;
        }
    }

    /// Records what a top-level item of the checked program tells.
    pub fn collect_checked_top(&mut self, item: &TopItem)
        requires
            chains_end(old(self).spec_aliases()),
        ensures
            final(self).spec_aliases() == old(self).spec_aliases(),
            final(self).view() == apply_events(
                old(self).view(),
                top_events(old(self).spec_aliases(), *item),
            ),
    {
        let ghost start = self.view();
        match item {
            TopItem::TypeAlias { binding, ty, .. } => {
                self.record_type_detail(binding.id.0, name_of_type(ty));
                proof {
                    lemma_apply_one(start, IndexEvent::TypeDetail(binding.id.0, type_name_text(*ty)));
                }
            },
            TopItem::ExternalType { binding } => {
                let text = binding.name.text.clone();
                self.record_type_detail(binding.id.0, text);
                proof {
                    lemma_apply_one(start, IndexEvent::TypeDetail(binding.id.0, binding.name.text@));
                }
            },
            TopItem::ExternalOperation { .. } => {
                assert(top_events(self.spec_aliases(), *item) =~= Seq::<IndexEvent>::empty());
            },
            TopItem::Binding(binding) => self.collect_checked_binding(binding),
        }
    }

    /// Records what every top-level item of the checked program tells, in order.
    pub fn collect_checked_program(&mut self, program: &Program)
        requires
            chains_end(old(self).spec_aliases()),
        ensures
            final(self).spec_aliases() == old(self).spec_aliases(),
            final(self).view() == apply_events(
                old(self).view(),
                program_events(old(self).spec_aliases(), program.items@, 0),
            ),
    {
        let ghost aliases = self.spec_aliases();
        let ghost start = self.view();
        let mut k: usize = 0;
        while k < program.items.len()
            invariant
                k <= program.items@.len(),
                self.spec_aliases() == aliases,
                chains_end(aliases),
                apply_events(self.view(), program_events(aliases, program.items@, k as nat))
                    == apply_events(start, program_events(aliases, program.items@, 0)),
            decreases program.items@.len() - k,
        {
            let ghost before = self.view();
            self.collect_checked_top(&program.items[k].kind);
            proof {
                lemma_apply_append(
                    before,
                    top_events(aliases, program.items@[k as int].kind),
                    program_events(aliases, program.items@, (k + 1) as nat),
                );
            }
            k = k + 1;
        }
    }

    /// The kind an editor shows for symbol `id`.
    pub fn kind(&self, id: SymbolId) -> (kind: SymbolKind)
        ensures
            kind == symbol_kind(self.view(), id),
    {
        match id {
            SymbolId::Type(_) => SymbolKind::Type,
            SymbolId::ExternalOperation(_) => SymbolKind::Function,
            SymbolId::Value(value) => {
                if self.parameters.contains(&value.0) {
                    return SymbolKind::Parameter;
                }
                match self.value_types.get(&value.0) {
                    Some(ty) => {
                        let mut text: Vec<char> = Vec::new();
                        push_str(&mut text, ty.as_str());
                        let mut arrow: Vec<char> = Vec::new();
                        push_str(&mut arrow, " -> ");
                        proof {
                            reveal_strlit(" -> ");
                            assert(arrow@ =~= function_arrow());
                        }
                        if text_contains(&text, &arrow) {
                            SymbolKind::Function
                        } else {
                            SymbolKind::Value
                        }
                    },
                    None => SymbolKind::Value,
                }
            },
        }
    }

    /// The detail an editor shows for symbol `id`, the external operations being those of
    /// `checked`.
    pub fn detail(&self, id: SymbolId, checked: &Program) -> (detail: Option<String>)
        ensures
            optional_text(detail) == symbol_detail(self.view(), checked.items@, id),
    {
        match id {
            SymbolId::Type(ty) => match self.type_details.get(&ty.0) {
                Some(text) => Some(text.clone()),
                None => None,
            },
            SymbolId::Value(value) => match self.value_types.get(&value.0) {
                Some(text) => Some(text.clone()),
                None => None,
            },
            SymbolId::ExternalOperation(operation) => {
                let items = &checked.items;
                let mut k: usize = 0;
                while k < items.len()
                    invariant
                        k <= items@.len(),
                        items@ == checked.items@,
                        id == SymbolId::ExternalOperation(operation),
                        operation_detail(items@, operation.0, k as nat) == operation_detail(
                            items@,
                            operation.0,
                            0,
                        ),
                    decreases items@.len() - k,
                {
                    match &items[k].kind {
                        TopItem::ExternalOperation { id: item_id, parameter, result, .. } => {
                            if item_id.0 == operation.0 {
                                let parameter_name = name_of_type(parameter);
                                let result_name = name_of_type(result);
                                let mut text: Vec<char> = Vec::new();
                                push_str(&mut text, parameter_name.as_str());
                                push_str(&mut text, " -> ");
                                push_str(&mut text, result_name.as_str());
                                proof {
                                    reveal_strlit(" -> ");
                                    assert(text@ =~= type_name_text(*parameter) + function_arrow()
                                        + type_name_text(*result));
                                }
                                return Some(string_from_chars(&text));
                            }
                        },
                        _ => {},
                    }
                    k = k + 1;
                }
                None
            },
        }
    }

    /// Records that `name` stands for symbol `id` in the role `role`.
    pub fn add_raw(&mut self, id: SymbolId, name: &Name, role: OccurrenceRole)
        ensures
            final(self).spec_aliases() == old(self).spec_aliases(),
            final(self).view() == (IndexView {
                raw: old(self).view().raw.push(
                    RawOccurrence { id, name: name.text, span: name.span, role },
                ),
                ..old(self).view()
            }),
    {
        self.raw_occurrences.push(RawOccurrence { id, name: name.text.clone(), span: name.span, role });
    }

    /// Records that `id` is declared at the top level.
    pub fn add_top_level(&mut self, id: SymbolId)
        ensures
            final(self).spec_aliases() == old(self).spec_aliases(),
            final(self).view() == (IndexView {
                top_level: old(self).view().top_level.push(id),
                ..old(self).view()
            }),
    {
        self.top_level.push(id);
    }

    /// The symbol that `id` stands for once a value is followed to the value it aliases.
    pub fn canonical_symbol(&self, id: SymbolId) -> (canonical: SymbolId)
        requires
            chains_end(self.spec_aliases()),
        ensures
            canonical == canonical_symbol(self.spec_aliases(), id),
    {
        match id {
            SymbolId::Value(value) => SymbolId::Value(ValueId(self.canonical_value(value.0))),
            other => other,
        }
    }

    /// The occurrences that the recorded names become, in the order they were recorded.
    fn finished_occurrences(&self, checked: &Program) -> (occurrences: Vec<Occurrence>)
        requires
            chains_end(self.spec_aliases()),
        ensures
            occurrences@.len() == self.view().raw.len(),
            forall|i: int|
                0 <= i < occurrences@.len() ==> finished_occurrence(
                    self.view(),
                    self.spec_aliases(),
                    checked.items@,
                    self.view().raw[i],
                    #[trigger] occurrences@[i],
                ),
    {
        let mut occurrences: Vec<Occurrence> = Vec::new();
        let mut k: usize = 0;
        while k < self.raw_occurrences.len()
            invariant
                k <= self.raw_occurrences@.len(),
                chains_end(self.spec_aliases()),
                occurrences@.len() == k,
                forall|i: int|
                    0 <= i < k ==> finished_occurrence(
                        self.view(),
                        self.spec_aliases(),
                        checked.items@,
                        self.view().raw[i],
                        #[trigger] occurrences@[i],
                    ),
            decreases self.raw_occurrences@.len() - k,
        {
            let raw = &self.raw_occurrences[k];
            let id = self.canonical_symbol(raw.id);
            occurrences.push(
                Occurrence {
                    id,
                    name: raw.name.clone(),
                    span: raw.span,
                    kind: self.kind(id),
                    role: raw.role,
                    detail: self.detail(id, checked),
                },
            );
            k = k + 1;
        }
        occurrences
    }

    /// The document an editor shows for `file`, or for the whole program when no file is chosen:
    /// the occurrences in source order, the typed regions, the outline of the top-level symbols
    /// declared in the file, and the completions, sorted by name, that the predefined symbols and
    /// the visible top-level symbols offer, the first of each name.
    pub fn finish(
        self,
        checked: &Program,
        predefined: Vec<Symbol>,
        file: Option<FileId>,
        visible: Option<&HashSet<u32>>,
    ) -> (document: SemanticDocument)
        requires
            chains_end(self.spec_aliases()),
        ensures
            exists|finished: Seq<Occurrence>, order: Seq<int>|
                {
                    &&& finished.len() == self.view().raw.len()
                    &&& forall|i: int|
                        0 <= i < finished.len() ==> finished_occurrence(
                            self.view(),
                            self.spec_aliases(),
                            checked.items@,
                            self.view().raw[i],
                            #[trigger] finished[i],
                        )
                    &&& stably_sorted_by_span(finished, document.spec_occurrences(), order)
                },
            regions_of(document.spec_typed_regions()) == self.view().regions,
            document.spec_document_symbols() == document_symbols_of(
                declared_symbols(self.view().top_level, document.spec_occurrences()),
                file,
            ),
            first_of_each_name(
                predefined@ + offered_symbols(
                    declared_symbols(self.view().top_level, document.spec_occurrences()),
                    file,
                    visible_view(visible),
                ),
                document.spec_completions(),
            ),
    {
        let finished = self.finished_occurrences(checked);
        let occurrences = sort_by_span(&finished);
        let top_level = top_level_symbols(&self.top_level, &occurrences);
        let document_symbols = document_symbols_in(&top_level, file);
        let mut candidates = predefined;
        let mut offered = offered_in(&top_level, file, visible);
        candidates.append(&mut offered);
        let completions = first_of_each_name_sorted(&candidates);
        SemanticDocument::new(occurrences, self.typed_regions, document_symbols, completions)
    }
}

} // verus!
