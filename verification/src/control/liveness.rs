use vstd::prelude::*;

use crate::closure::ast::{self as closure, Atom, AtomKind, Pattern, Reference};
use crate::core_ir::ast::ValueId;

use crate::check::ast::duplicate_type;

use super::ast::{Binding, LiveValue, Operation, State, StateId, Terminator, successor_ids};
use super::forwarding::reference_value;
use super::reach::{is_path, reach, reaches, reaches_along, successors_within};

verus! {

broadcast use vstd::seq::Seq::lemma_push_to_set_commute;

/// The values that a pattern defines.
pub open spec fn pattern_ids(pattern: Pattern) -> Set<ValueId>
    decreases pattern, 0nat,
{
    match pattern {
        Pattern::Binding { id, .. } => set![id],
        Pattern::Wildcard { .. } => Set::empty(),
        Pattern::Product { elements, .. } => element_ids(elements@, 0),
    }
}

pub open spec fn element_ids(elements: Seq<Pattern>, from: nat) -> Set<ValueId>
    decreases elements, elements.len() - from,
{
    if from >= elements.len() {
        Set::empty()
    } else {
        pattern_ids(elements[from as int]).union(element_ids(elements, from + 1))
    }
}

pub open spec fn input_ids(input: Option<Pattern>) -> Set<ValueId> {
    match input {
        Some(pattern) => pattern_ids(pattern),
        None => Set::empty(),
    }
}

/// The atoms that an operation reads.
pub open spec fn operation_atoms(operation: Operation) -> Seq<Atom> {
    match operation {
        Operation::Atom(value) => seq![value],
        Operation::SymbolLength { value } => seq![value],
        Operation::SymbolAt { argument } => seq![argument],
        Operation::Memory { operands, .. } => operands@,
        Operation::ExternalCall { argument, .. } => seq![argument],
        Operation::NumericConversion { operand } => seq![operand],
        Operation::PrimitiveUnary { operand, .. } => seq![operand],
        Operation::SumInjection { value, .. } => seq![value],
        Operation::MakeClosure { captures, .. } => captures@,
        Operation::Product(values) => values@,
        Operation::PrimitiveBinary { left, right, .. } => seq![left, right],
    }
}

/// The atoms that a terminator reads.
pub open spec fn terminator_atoms(terminator: Terminator) -> Seq<Atom> {
    match terminator {
        Terminator::Return(value) => seq![value],
        Terminator::Jump { value, .. } => seq![value],
        Terminator::Goto(_) => seq![],
        Terminator::Call { callee, argument, .. } => seq![callee, argument],
        Terminator::TailCall { callee, argument } => seq![callee, argument],
        Terminator::Case { scrutinee, .. } => seq![scrutinee],
        Terminator::PrimitiveBranch { left, right, .. } => seq![left, right],
    }
}

/// The values that `atoms` read and that are not among `defined`.
pub open spec fn atom_uses(atoms: Seq<Atom>, defined: Set<ValueId>) -> Set<ValueId> {
    Set::new(
        |id: ValueId|
            exists|k: int|
                0 <= k < atoms.len() && reference_value(#[trigger] atoms[k]) == Some(id)
                    && !defined.contains(id),
    )
}

/// Some atom reads the closure's environment: a capture field or the closure itself.
pub open spec fn reads_environment(atoms: Seq<Atom>) -> bool {
    exists|k: int|
        0 <= k < atoms.len() && (#[trigger] atoms[k].kind matches AtomKind::Reference(reference)
            && (reference is Capture || reference is SelfClosure))
}

/// The values a state defines before its binding `k`: its input and the first `k` bindings.
pub open spec fn defined_before(state: State, k: int) -> Set<ValueId>
    decreases k,
{
    if k <= 0 {
        input_ids(state.input)
    } else {
        defined_before(state, k - 1).union(pattern_ids(state.bindings@[k - 1].pattern))
    }
}

/// The values that the first `k` bindings of a state read before the state defines them.
pub open spec fn used_before(state: State, k: int) -> Set<ValueId>
    decreases k,
{
    if k <= 0 {
        Set::empty()
    } else {
        used_before(state, k - 1).union(
            atom_uses(operation_atoms(state.bindings@[k - 1].operation), defined_before(state, k - 1)),
        )
    }
}

/// The values a state reads that it did not define itself: they must be live on entry.
pub open spec fn state_uses(state: State) -> Set<ValueId> {
    let n = state.bindings@.len() as int;
    used_before(state, n).union(atom_uses(terminator_atoms(state.terminator), defined_before(state, n)))
}

/// The values a state defines: its input and its bindings.
pub open spec fn state_definitions(state: State) -> Set<ValueId> {
    defined_before(state, state.bindings@.len() as int)
}

/// A state reads the closure's environment.
pub open spec fn state_reads_environment(state: State) -> bool {
    (exists|k: int|
        0 <= k < state.bindings@.len() && reads_environment(
            operation_atoms(#[trigger] state.bindings@[k].operation),
        )) || reads_environment(terminator_atoms(state.terminator))
}

fn holds_value(values: &Vec<ValueId>, id: ValueId) -> (held: bool)
    ensures
        held == values@.contains(id),
{
    let mut k: usize = 0;
    while k < values.len()
        invariant
            k <= values@.len(),
            forall|i: int| 0 <= i < k ==> values@[i] != id,
        decreases values@.len() - k,
    {
        if values[k] == id {
            return true;
        }
        k = k + 1;
    }
    false
}

/// Adds the values a pattern defines to `definitions`.
fn collect_pattern_definitions(pattern: &Pattern, definitions: &mut Vec<ValueId>)
    ensures
        final(definitions)@.to_set() == old(definitions)@.to_set().union(pattern_ids(*pattern)),
    decreases pattern, 1nat,
{
    match pattern {
        Pattern::Binding { id, .. } => {
            definitions.push(*id);
            proof {
                assert(definitions@.to_set() =~= old(definitions)@.to_set().union(set![*id]));
            }
        },
        Pattern::Wildcard { .. } => {
            proof {
                assert(definitions@.to_set() =~= old(definitions)@.to_set().union(Set::empty()));
            }
        },
        Pattern::Product { elements, .. } => {
            collect_element_definitions(elements, definitions);
        },
    }
}

fn collect_element_definitions(elements: &Vec<Pattern>, definitions: &mut Vec<ValueId>)
    ensures
        final(definitions)@.to_set() == old(definitions)@.to_set().union(element_ids(elements@, 0)),
    decreases elements, 2nat,
{
    let ghost start = definitions@.to_set();
    let mut index = elements.len();
    proof {
        assert(definitions@.to_set() =~= start.union(element_ids(elements@, index as nat)));
    }
    while index > 0
        invariant
            index <= elements@.len(),
            start == old(definitions)@.to_set(),
            definitions@.to_set() == start.union(element_ids(elements@, index as nat)),
        decreases index,
    {
        index = index - 1;
        collect_pattern_definitions(&elements[index], definitions);
        proof {
            let ids = element_ids(elements@, index as nat);
            assert(ids == pattern_ids(elements@[index as int]).union(element_ids(
                elements@,
                (index + 1) as nat,
            )));
            assert(definitions@.to_set() =~= start.union(ids));
        }
    }
}

/// Records what `atom` reads: a bound value not yet defined joins `uses`, and a read of the
/// environment sets `environment`.
fn collect_atom_uses(atom: &Atom, definitions: &Vec<ValueId>, uses: &mut Vec<ValueId>, environment: &mut bool)
    ensures
        final(uses)@.to_set() == old(uses)@.to_set().union(atom_uses(seq![*atom], definitions@.to_set())),
        *final(environment) == (*old(environment) || reads_environment(seq![*atom])),
{
    let ghost defined = definitions@.to_set();
    let ghost single = seq![*atom];
    assert(single[0] == *atom);
    match atom.kind {
        AtomKind::Reference(Reference::Binding(id)) => {
            if !holds_value(definitions, id) {
                uses.push(id);
                assert(uses@.to_set() =~= old(uses)@.to_set().union(atom_uses(single, defined)));
            } else {
                assert(uses@.to_set() =~= old(uses)@.to_set().union(atom_uses(single, defined)));
            }
        },
        AtomKind::Reference(Reference::Capture(_)) | AtomKind::Reference(
            Reference::SelfClosure(_),
        ) => {
            *environment = true;
            assert(uses@.to_set() =~= old(uses)@.to_set().union(atom_uses(single, defined)));
        },
        _ => {
            assert(uses@.to_set() =~= old(uses)@.to_set().union(atom_uses(single, defined)));
        },
    }
}

/// What a sequence of atoms reads is what its parts read.
proof fn lemma_atom_uses_append(a: Seq<Atom>, b: Seq<Atom>, defined: Set<ValueId>)
    ensures
        atom_uses(a + b, defined) == atom_uses(a, defined).union(atom_uses(b, defined)),
        reads_environment(a + b) == (reads_environment(a) || reads_environment(b)),
{
    let ab = a + b;
    assert forall|v: ValueId| #[trigger] atom_uses(ab, defined).contains(v) implies atom_uses(a, defined).union(
        atom_uses(b, defined),
    ).contains(v) by {
        let k = choose|k: int| 0 <= k < ab.len() && reference_value(#[trigger] ab[k]) == Some(v) && !defined.contains(v);
        if k < a.len() {
            assert(ab[k] == a[k]);
        } else {
            assert(ab[k] == b[k - a.len()]);
        }
    }
    assert forall|v: ValueId| #[trigger] atom_uses(a, defined).union(atom_uses(b, defined)).contains(v) implies atom_uses(
        ab,
        defined,
    ).contains(v) by {
        if atom_uses(a, defined).contains(v) {
            let k = choose|k: int| 0 <= k < a.len() && reference_value(#[trigger] a[k]) == Some(v) && !defined.contains(v);
            assert(ab[k] == a[k]);
        } else {
            let k = choose|k: int| 0 <= k < b.len() && reference_value(#[trigger] b[k]) == Some(v) && !defined.contains(v);
            assert(ab[a.len() + k] == b[k]);
        }
    }
    assert(atom_uses(ab, defined) =~= atom_uses(a, defined).union(atom_uses(b, defined)));
    if reads_environment(ab) {
        let k = choose|k: int|
            0 <= k < ab.len() && (#[trigger] ab[k].kind matches AtomKind::Reference(reference) && (
            reference is Capture || reference is SelfClosure));
        if k < a.len() {
            assert(ab[k] == a[k]);
        } else {
            assert(ab[k] == b[k - a.len()]);
        }
    }
    if reads_environment(a) {
        let k = choose|k: int|
            0 <= k < a.len() && (#[trigger] a[k].kind matches AtomKind::Reference(reference) && (
            reference is Capture || reference is SelfClosure));
        assert(ab[k] == a[k]);
    }
    if reads_environment(b) {
        let k = choose|k: int|
            0 <= k < b.len() && (#[trigger] b[k].kind matches AtomKind::Reference(reference) && (
            reference is Capture || reference is SelfClosure));
        assert(ab[a.len() + k] == b[k]);
    }
}

/// Records what each of `atoms` reads, in order.
fn collect_atoms_uses(atoms: &Vec<Atom>, definitions: &Vec<ValueId>, uses: &mut Vec<ValueId>, environment: &mut bool)
    ensures
        final(uses)@.to_set() == old(uses)@.to_set().union(atom_uses(atoms@, definitions@.to_set())),
        *final(environment) == (*old(environment) || reads_environment(atoms@)),
{
    let ghost defined = definitions@.to_set();
    let mut index: usize = 0;
    assert(atoms@.take(0) =~= Seq::<Atom>::empty());
    assert(atom_uses(Seq::<Atom>::empty(), defined) =~= Set::empty());
    assert(uses@.to_set() =~= old(uses)@.to_set().union(Set::empty()));
    while index < atoms.len()
        invariant
            index <= atoms@.len(),
            defined == definitions@.to_set(),
            uses@.to_set() == old(uses)@.to_set().union(atom_uses(atoms@.take(index as int), defined)),
            *environment == (*old(environment) || reads_environment(atoms@.take(index as int))),
        decreases atoms@.len() - index,
    {
        collect_atom_uses(&atoms[index], definitions, uses, environment);
        proof {
            assert(atoms@.take(index + 1) =~= atoms@.take(index as int) + seq![atoms@[index as int]]);
            lemma_atom_uses_append(atoms@.take(index as int), seq![atoms@[index as int]], defined);
            assert(uses@.to_set() =~= old(uses)@.to_set().union(atom_uses(atoms@.take(index + 1), defined)));
        }
        index = index + 1;
    }
    assert(atoms@.take(atoms@.len() as int) =~= atoms@);
}


/// Records what two atoms read, in order.
fn collect_pair_uses(
    left: &Atom,
    right: &Atom,
    definitions: &Vec<ValueId>,
    uses: &mut Vec<ValueId>,
    environment: &mut bool,
)
    ensures
        final(uses)@.to_set() == old(uses)@.to_set().union(
            atom_uses(seq![*left, *right], definitions@.to_set()),
        ),
        *final(environment) == (*old(environment) || reads_environment(seq![*left, *right])),
{
    collect_atom_uses(left, definitions, uses, environment);
    collect_atom_uses(right, definitions, uses, environment);
    proof {
        assert(seq![*left, *right] =~= seq![*left] + seq![*right]);
        lemma_atom_uses_append(seq![*left], seq![*right], definitions@.to_set());
        assert(uses@.to_set() =~= old(uses)@.to_set().union(
            atom_uses(seq![*left, *right], definitions@.to_set()),
        ));
    }
}

/// Records what an operation reads.
fn visit_operation(
    operation: &Operation,
    definitions: &Vec<ValueId>,
    uses: &mut Vec<ValueId>,
    environment: &mut bool,
)
    ensures
        final(uses)@.to_set() == old(uses)@.to_set().union(
            atom_uses(operation_atoms(*operation), definitions@.to_set()),
        ),
        *final(environment) == (*old(environment) || reads_environment(operation_atoms(*operation))),
{
    match operation {
        Operation::Atom(value) | Operation::SymbolLength { value } | Operation::SymbolAt {
            argument: value,
        } | Operation::ExternalCall {
            argument: value,
            ..
        } | Operation::NumericConversion { operand: value } | Operation::PrimitiveUnary {
            operand: value,
            ..
        } | Operation::SumInjection { value, .. } => {
            collect_atom_uses(value, definitions, uses, environment);
        },
        Operation::MakeClosure { captures, .. } | Operation::Product(captures) | Operation::Memory {
            operands: captures,
            ..
        } => {
            collect_atoms_uses(captures, definitions, uses, environment);
        },
        Operation::PrimitiveBinary { left, right, .. } => {
            collect_pair_uses(left, right, definitions, uses, environment);
        },
    }
}

/// Records what a terminator reads.
fn visit_terminator(
    terminator: &Terminator,
    definitions: &Vec<ValueId>,
    uses: &mut Vec<ValueId>,
    environment: &mut bool,
)
    ensures
        final(uses)@.to_set() == old(uses)@.to_set().union(
            atom_uses(terminator_atoms(*terminator), definitions@.to_set()),
        ),
        *final(environment) == (*old(environment) || reads_environment(terminator_atoms(*terminator))),
{
    match terminator {
        Terminator::Return(value) | Terminator::Jump { value, .. } => {
            collect_atom_uses(value, definitions, uses, environment);
        },
        Terminator::Goto(_) => {
            proof {
                assert(atom_uses(Seq::<Atom>::empty(), definitions@.to_set()) =~= Set::empty());
                assert(uses@.to_set() =~= old(uses)@.to_set().union(Set::empty()));
            }
        },
        Terminator::Call { callee, argument, .. } | Terminator::TailCall { callee, argument } => {
            collect_pair_uses(callee, argument, definitions, uses, environment);
        },
        Terminator::Case { scrutinee, .. } => {
            collect_atom_uses(scrutinee, definitions, uses, environment);
        },
        Terminator::PrimitiveBranch { left, right, .. } => {
            collect_pair_uses(left, right, definitions, uses, environment);
        },
    }
}

/// What a state reads before defining it, what it defines, and whether it reads the closure's
/// environment.
fn state_facts(state: &State) -> (facts: (Vec<ValueId>, Vec<ValueId>, bool))
    ensures
        facts.0@.to_set() == state_uses(*state),
        facts.1@.to_set() == state_definitions(*state),
        facts.2 == state_reads_environment(*state),
{
    let mut uses: Vec<ValueId> = Vec::new();
    let mut definitions: Vec<ValueId> = Vec::new();
    let mut environment = false;
    match &state.input {
        Some(input) => {
            collect_pattern_definitions(input, &mut definitions);
        },
        None => {},
    }
    assert(definitions@.to_set() =~= defined_before(*state, 0));
    assert(uses@.to_set() =~= used_before(*state, 0));
    let mut index: usize = 0;
    while index < state.bindings.len()
        invariant
            index <= state.bindings@.len(),
            definitions@.to_set() == defined_before(*state, index as int),
            uses@.to_set() == used_before(*state, index as int),
            environment == exists|k: int|
                0 <= k < index && reads_environment(operation_atoms(#[trigger] state.bindings@[k].operation)),
        decreases state.bindings@.len() - index,
    {
        let binding = &state.bindings[index];
        assert(state.bindings@[index as int] == *binding);
        visit_operation(&binding.operation, &definitions, &mut uses, &mut environment);
        collect_pattern_definitions(&binding.pattern, &mut definitions);
        proof {
            assert(uses@.to_set() =~= used_before(*state, index + 1));
            assert(definitions@.to_set() =~= defined_before(*state, index + 1));
        }
        index = index + 1;
    }
    visit_terminator(&state.terminator, &definitions, &mut uses, &mut environment);
    (uses, definitions, environment)
}


/// The states a terminator passes control to, in order.
pub fn successors(terminator: &Terminator) -> (targets: Vec<StateId>)
    ensures
        targets@ == successor_ids(*terminator),
{
    let mut targets: Vec<StateId> = Vec::new();
    match terminator {
        Terminator::Return(_) | Terminator::TailCall { .. } => {},
        Terminator::Goto(target) | Terminator::Jump { target, .. } => {
            targets.push(*target);
        },
        Terminator::Call { resume, .. } => {
            targets.push(*resume);
        },
        Terminator::Case { arms, .. } => {
            let mut k: usize = 0;
            while k < arms.len()
                invariant
                    k <= arms@.len(),
                    targets@ == arms@.take(k as int).map_values(|arm: super::ast::CaseArm| arm.target),
                decreases arms@.len() - k,
            {
                targets.push(arms[k].target);
                k = k + 1;
                assert(targets@ =~= arms@.take(k as int).map_values(
                    |arm: super::ast::CaseArm| arm.target,
                ));
            }
            assert(arms@.take(arms@.len() as int) =~= arms@);
        },
        Terminator::PrimitiveBranch { otherwise, then, .. } => {
            targets.push(*otherwise);
            targets.push(*then);
        },
    }
    proof {
        assert(targets@ =~= successor_ids(*terminator));
    }
    targets
}

/// Every successor of a state from `start` on comes before it, and not before `start`: the
/// lowering emits successors first.
pub open spec fn emitted_in_order(states: Seq<State>, start: int) -> bool {
    forall|i: int, k: int|
        #![trigger successor_ids(states[i].terminator)[k]]
        start <= i < states.len() && 0 <= k < successor_ids(states[i].terminator).len() ==> start
            <= successor_ids(states[i].terminator)[k].0 < i
}

/// Marks, by position from `start`, the states that read `v` before they define it.
pub open spec fn use_marks(states: Seq<State>, start: int, v: ValueId) -> Seq<bool> {
    Seq::new((states.len() - start) as nat, |j: int| state_uses(states[start + j]).contains(v))
}

/// Marks, by position from `start`, the states that define `v`.
pub open spec fn definition_marks(states: Seq<State>, start: int, v: ValueId) -> Seq<bool> {
    Seq::new((states.len() - start) as nat, |j: int| state_definitions(states[start + j]).contains(v))
}

/// Marks, by position from `start`, the states that read the closure's environment.
pub open spec fn environment_marks(states: Seq<State>, start: int) -> Seq<bool> {
    Seq::new((states.len() - start) as nat, |j: int| state_reads_environment(states[start + j]))
}

/// No state marked.
pub open spec fn no_marks(states: Seq<State>, start: int) -> Seq<bool> {
    Seq::new((states.len() - start) as nat, |j: int| false)
}

/// The values live on entry to state `i`: those that some walk from `i` through successors reads
/// before a state on the walk defines them. This is the least solution of: live on entry to `s`
/// are the values `s` reads before defining them, and those live on entry to a successor that
/// `s` does not define.
pub open spec fn live_in(states: Seq<State>, start: int, i: int) -> Set<ValueId> {
    Set::new(
        |v: ValueId|
            reaches(states, start, use_marks(states, start, v), definition_marks(states, start, v), i),
    )
}

/// Control from state `i` on may read the closure's environment: some walk from `i` through
/// successors reaches a state that reads it.
pub open spec fn environment_in(states: Seq<State>, start: int, i: int) -> bool {
    reaches(states, start, environment_marks(states, start), no_marks(states, start), i)
}

/// The locals that are live on entry to a state, in the order of `locals`.
pub open spec fn live_locals(locals: Seq<LiveValue>, live: Set<ValueId>) -> Seq<LiveValue> {
    locals.filter(|value: LiveValue| live.contains(value.id))
}

pub open spec fn copies_live_value(copy: LiveValue, original: LiveValue) -> bool {
    copy.id == original.id && copy.ty.deep_equal(original.ty) && copy.span == original.span
}

/// `after` is the state `before` (state `i` of `states`) with what a call must save recorded: a
/// call records the locals live where it resumes and whether control from there on reads the
/// environment; any other state is unchanged.
pub open spec fn records_liveness(
    states: Seq<State>,
    start: int,
    locals: Seq<LiveValue>,
    before: State,
    after: State,
) -> bool {
    match before.terminator {
        Terminator::Call { callee, argument, resume, .. } => {
            &&& after.input == before.input
            &&& after.bindings == before.bindings
            &&& after.span == before.span
            &&& match after.terminator {
                Terminator::Call { callee: c, argument: a, resume: r, live, needs_environment } => {
                    let expected = live_locals(locals, live_in(states, start, resume.0 as int));
                    &&& c == callee
                    &&& a == argument
                    &&& r == resume
                    &&& needs_environment == environment_in(states, start, resume.0 as int)
                    &&& live@.len() == expected.len()
                    &&& forall|j: int|
                        0 <= j < live@.len() ==> copies_live_value(#[trigger] live@[j], expected[j])
                },
                _ => false,
            }
        },
        _ => after == before,
    }
}

fn copy_live_value(value: &LiveValue) -> (copy: LiveValue)
    ensures
        copies_live_value(copy, *value),
{
    LiveValue { id: value.id, ty: duplicate_type(&value.ty), span: value.span }
}

/// The locals whose values are among `live`, in order.
fn select_live(locals: &Vec<LiveValue>, live: &Vec<ValueId>) -> (selected: Vec<LiveValue>)
    ensures
        selected@.len() == live_locals(locals@, live@.to_set()).len(),
        forall|j: int|
            0 <= j < selected@.len() ==> copies_live_value(
                #[trigger] selected@[j],
                live_locals(locals@, live@.to_set())[j],
            ),
{
    let ghost set = live@.to_set();
    let ghost pred = |value: LiveValue| set.contains(value.id);
    let mut selected: Vec<LiveValue> = Vec::new();
    let mut k: usize = 0;
    assert(locals@.take(0).filter(pred) =~= Seq::<LiveValue>::empty());
    while k < locals.len()
        invariant
            k <= locals@.len(),
            set == live@.to_set(),
            pred == (|value: LiveValue| set.contains(value.id)),
            selected@.len() == locals@.take(k as int).filter(pred).len(),
            forall|j: int|
                0 <= j < selected@.len() ==> copies_live_value(
                    #[trigger] selected@[j],
                    locals@.take(k as int).filter(pred)[j],
                ),
        decreases locals@.len() - k,
    {
        let value = &locals[k];
        let ghost prefix = locals@.take(k as int);
        assert(locals@.take(k + 1) =~= prefix.push(*value));
        proof {
            prefix.lemma_filter_push(*value, pred);
        }
        if holds_value(live, value.id) {
            let ghost before = selected@;
            selected.push(copy_live_value(value));
            assert forall|j: int|
                0 <= j < selected@.len() implies copies_live_value(
                #[trigger] selected@[j],
                locals@.take(k + 1).filter(pred)[j],
            ) by {
                if j < before.len() {
                    assert(selected@[j] == before[j]);
                }
            }
        }
        k = k + 1;
    }
    assert(locals@.take(locals@.len() as int) =~= locals@);
    selected
}

/// The state with the liveness of its call recorded.
fn with_call_liveness(state: State, live: Vec<LiveValue>, needs: bool) -> (result: State)
    requires
        state.terminator is Call,
    ensures
        result.input == state.input,
        result.bindings == state.bindings,
        result.span == state.span,
        match state.terminator {
            Terminator::Call { callee, argument, resume, .. } => result.terminator == Terminator::Call {
                callee,
                argument,
                resume,
                live,
                needs_environment: needs,
            },
            _ => false,
        },
{
    let State { input, bindings, terminator, span } = state;
    match terminator {
        Terminator::Call { callee, argument, resume, .. } => State {
            input,
            bindings,
            terminator: Terminator::Call {
                callee,
                argument,
                resume,
                live,
                needs_environment: needs,
            },
            span,
        },
        other => State { input, bindings, terminator: other, span },
    }
}

/// Computes which values live across each call of the states from `start` on, and whether control
/// after the call reads the closure's environment, and records both on the call.
pub fn resolve_liveness(states: &mut Vec<State>, start: usize, locals: &Vec<LiveValue>)
    requires
        start <= old(states)@.len(),
        successors_within(old(states)@, start as int),
    ensures
        final(states)@.len() == old(states)@.len(),
        forall|i: int|
            0 <= i < start ==> #[trigger] final(states)@[i] == old(states)@[i],
        forall|i: int|
            start <= i < old(states)@.len() ==> records_liveness(
                old(states)@,
                start as int,
                locals@,
                old(states)@[i],
                #[trigger] final(states)@[i],
            ),
{
    let ghost original = states@;
    let end = states.len();
    let n = end - start;
    let mut facts: Vec<(Vec<ValueId>, Vec<ValueId>, bool)> = Vec::new();
    let mut universe: Vec<ValueId> = Vec::new();
    while facts.len() < n
        invariant
            n == end - start,
            end == states@.len(),
            start <= end,
            states@ == original,
            facts@.len() <= n,
            forall|j: int|
                0 <= j < facts@.len() ==> {
                    &&& (#[trigger] facts@[j]).0@.to_set() == state_uses(original[start + j])
                    &&& facts@[j].1@.to_set() == state_definitions(original[start + j])
                    &&& facts@[j].2 == state_reads_environment(original[start + j])
                },
            forall|j: int, v: ValueId|
                0 <= j < facts@.len() && #[trigger] state_uses(original[start + j]).contains(v)
                    ==> universe@.contains(v),
        decreases n - facts@.len(),
    {
        let j = facts.len();
        let found = state_facts(&states[start + j]);
        let mut k: usize = 0;
        let ghost prior = universe@;
        while k < found.0.len()
            invariant
                k <= found.0@.len(),
                forall|v: ValueId| prior.contains(v) ==> universe@.contains(v),
                forall|q: int| 0 <= q < k ==> universe@.contains(#[trigger] found.0@[q]),
            decreases found.0@.len() - k,
        {
            let ghost before = universe@;
            universe.push(found.0[k]);
            proof {
                assert forall|v: ValueId| before.contains(v) implies universe@.contains(v) by {
                    let q = choose|q: int| 0 <= q < before.len() && before[q] == v;
                    assert(universe@[q] == v);
                }
                assert(universe@[before.len() as int] == found.0@[k as int]);
                assert forall|q: int| 0 <= q < k + 1 implies universe@.contains(#[trigger] found.0@[q]) by {
                    if q < k {
                        let r = choose|r: int| 0 <= r < before.len() && before[r] == found.0@[q];
                        assert(universe@[r] == found.0@[q]);
                    } else {
                        assert(universe@[before.len() as int] == found.0@[q]);
                    }
                }
            }
            k = k + 1;
        }
        proof {
            assert forall|v: ValueId| state_uses(original[start + j]).contains(v) implies universe@.contains(v) by {
                assert(found.0@.to_set().contains(v));
                let q = choose|q: int| 0 <= q < found.0@.len() && found.0@[q] == v;
                assert(universe@.contains(found.0@[q]));
            }
        }
        facts.push(found);
    }
    let mut marks: Vec<Vec<bool>> = Vec::new();
    while marks.len() < universe.len()
        invariant
            n == end - start,
            end == states@.len(),
            start <= end,
            states@ == original,
            successors_within(original, start as int),
            facts@.len() == n,
            forall|j: int|
                0 <= j < n ==> {
                    &&& (#[trigger] facts@[j]).0@.to_set() == state_uses(original[start + j])
                    &&& facts@[j].1@.to_set() == state_definitions(original[start + j])
                },
            marks@.len() <= universe@.len(),
            forall|q: int, j: int|
                0 <= q < marks@.len() && 0 <= j < n ==> #[trigger] marks@[q]@[j] == reaches(
                    original,
                    start as int,
                    use_marks(original, start as int, universe@[q]),
                    definition_marks(original, start as int, universe@[q]),
                    start + j,
                ),
            forall|q: int| 0 <= q < marks@.len() ==> (#[trigger] marks@[q])@.len() == n,
        decreases universe@.len() - marks@.len(),
    {
        let id = universe[marks.len()];
        let mut base: Vec<bool> = Vec::new();
        let mut blocked: Vec<bool> = Vec::new();
        while base.len() < n
            invariant
                facts@.len() == n,
                forall|j: int|
                    0 <= j < n ==> {
                        &&& (#[trigger] facts@[j]).0@.to_set() == state_uses(original[start + j])
                        &&& facts@[j].1@.to_set() == state_definitions(original[start + j])
                    },
                blocked@.len() == base@.len(),
                base@.len() <= n,
                forall|j: int|
                    0 <= j < base@.len() ==> #[trigger] base@[j] == state_uses(original[start + j]).contains(id),
                forall|j: int|
                    0 <= j < blocked@.len() ==> #[trigger] blocked@[j] == state_definitions(
                        original[start + j],
                    ).contains(id),
            decreases n - base@.len(),
        {
            let j = base.len();
            proof {
                assert(facts@[j as int].0@.to_set().contains(id) == facts@[j as int].0@.contains(id));
                assert(facts@[j as int].1@.to_set().contains(id) == facts@[j as int].1@.contains(id));
            }
            base.push(holds_value(&facts[j].0, id));
            blocked.push(holds_value(&facts[j].1, id));
        }
        proof {
            assert(base@ =~= use_marks(original, start as int, id));
            assert(blocked@ =~= definition_marks(original, start as int, id));
        }
        let reached = reach(states, start, &base, &blocked);
        marks.push(reached);
    }
    let mut reads: Vec<bool> = Vec::new();
    let mut never: Vec<bool> = Vec::new();
    while reads.len() < n
        invariant
            facts@.len() == n,
            forall|j: int| 0 <= j < n ==> (#[trigger] facts@[j]).2 == state_reads_environment(original[start + j]),
            never@.len() == reads@.len(),
            reads@.len() <= n,
            forall|j: int| 0 <= j < reads@.len() ==> #[trigger] reads@[j] == state_reads_environment(original[start + j]),
            forall|j: int| 0 <= j < never@.len() ==> !#[trigger] never@[j],
        decreases n - reads@.len(),
    {
        reads.push(facts[reads.len()].2);
        never.push(false);
    }
    proof {
        assert(reads@ =~= environment_marks(original, start as int));
        assert(never@ =~= no_marks(original, start as int));
    }
    let environments = reach(states, start, &reads, &never);
    let mut live_sets: Vec<Vec<ValueId>> = Vec::new();
    while live_sets.len() < n
        invariant
            n == end - start,
            end == states@.len(),
            start <= end,
            states@ == original,
            marks@.len() == universe@.len(),
            forall|q: int| 0 <= q < marks@.len() ==> (#[trigger] marks@[q])@.len() == n,
            forall|q: int, j: int|
                0 <= q < marks@.len() && 0 <= j < n ==> #[trigger] marks@[q]@[j] == reaches(
                    original,
                    start as int,
                    use_marks(original, start as int, universe@[q]),
                    definition_marks(original, start as int, universe@[q]),
                    start + j,
                ),
            forall|j: int, v: ValueId|
                0 <= j < n && #[trigger] state_uses(original[start + j]).contains(v)
                    ==> universe@.contains(v),
            live_sets@.len() <= n,
            forall|j: int|
                0 <= j < live_sets@.len() ==> (#[trigger] live_sets@[j])@.to_set() == live_in(
                    original,
                    start as int,
                    start + j,
                ),
        decreases n - live_sets@.len(),
    {
        let slot = live_sets.len();
        let mut live: Vec<ValueId> = Vec::new();
        let mut q: usize = 0;
        while q < universe.len()
            invariant
                slot < n,
                marks@.len() == universe@.len(),
                forall|r: int| 0 <= r < marks@.len() ==> (#[trigger] marks@[r])@.len() == n,
                forall|r: int, j: int|
                    0 <= r < marks@.len() && 0 <= j < n ==> #[trigger] marks@[r]@[j] == reaches(
                        original,
                        start as int,
                        use_marks(original, start as int, universe@[r]),
                        definition_marks(original, start as int, universe@[r]),
                        start + j,
                    ),
                q <= universe@.len(),
                live@.to_set() == live_in(original, start as int, start + slot).intersect(
                    universe@.take(q as int).to_set(),
                ),
            decreases universe@.len() - q,
        {
            if marks[q][slot] {
                live.push(universe[q]);
            }
            proof {
                assert(marks@[q as int]@[slot as int] == live_in(original, start as int, start + slot).contains(universe@[q as int]));
                assert(universe@.take(q + 1) =~= universe@.take(q as int).push(universe@[q as int]));
                assert(live@.to_set() =~= live_in(original, start as int, start + slot).intersect(
                    universe@.take(q + 1).to_set(),
                ));
            }
            q = q + 1;
        }
        proof {
            let set = live_in(original, start as int, start + slot);
            assert forall|v: ValueId| set.contains(v) implies universe@.contains(v) by {
                let base = use_marks(original, start as int, v);
                let blocked = definition_marks(original, start as int, v);
                let path = choose|path: Seq<int>|
                    path[0] == start + slot && #[trigger] is_path(original, start as int, path)
                        && reaches_along(start as int, base, blocked, path);
                let last = path.last();
                assert(start <= last < end);
                assert(base[last - start]);
                assert(state_uses(original[start + (last - start)]).contains(v));
            }
            assert(universe@.take(universe@.len() as int) =~= universe@);
            assert forall|v: ValueId| set.contains(v) implies universe@.to_set().contains(v) by {}
            assert(live@.to_set() =~= set);
        }
        live_sets.push(live);
    }
    let mut index = start;
    while index < end
        invariant
            start <= index <= end,
            end == states@.len(),
            end == original.len(),
            successors_within(original, start as int),
            live_sets@.len() == end - start,
            environments@.len() == end - start,
            forall|j: int|
                0 <= j < end - start ==> (#[trigger] live_sets@[j])@.to_set() == live_in(
                    original,
                    start as int,
                    start + j,
                ),
            forall|j: int|
                0 <= j < end - start ==> #[trigger] environments@[j] == environment_in(
                    original,
                    start as int,
                    start + j,
                ),
            forall|i: int| 0 <= i < start ==> #[trigger] states@[i] == original[i],
            forall|i: int| index <= i < end ==> #[trigger] states@[i] == original[i],
            forall|i: int|
                start <= i < index ==> records_liveness(
                    original,
                    start as int,
                    locals@,
                    original[i],
                    #[trigger] states@[i],
                ),
        decreases end - index,
    {
        let resume = match &states[index].terminator {
            Terminator::Call { resume, .. } => Some(*resume),
            _ => None,
        };
        match resume {
            Some(resume) => {
                assert(successor_ids(original[index as int].terminator)[0] == resume);
                let slot = resume.0 - start;
                let live = select_live(locals, &live_sets[slot]);
                let needs = environments[slot];
                let ghost prior = states@;
                let state = states.remove(index);
                let replaced = with_call_liveness(state, live, needs);
                let ghost made = replaced;
                states.insert(index, replaced);
                assert(states@ =~= prior.update(index as int, made));
            },
            None => {},
        }
        index = index + 1;
    }
}


/// The locals a pattern binds, each with the span of what binds it, in order.
pub open spec fn pattern_locals(pattern: Pattern, span: crate::source::Span) -> Seq<LiveValue>
    decreases pattern, 0nat,
{
    match pattern {
        Pattern::Binding { id, ty } => seq![LiveValue { id, ty, span }],
        Pattern::Wildcard { .. } => seq![],
        Pattern::Product { elements, .. } => elements_locals(elements@, span, 0),
    }
}

pub open spec fn elements_locals(elements: Seq<Pattern>, span: crate::source::Span, from: nat) -> Seq<LiveValue>
    decreases elements, elements.len() - from,
{
    if from >= elements.len() {
        seq![]
    } else {
        pattern_locals(elements[from as int], span) + elements_locals(elements, span, from + 1)
    }
}

/// The locals a block binds, in order: each binding's pattern, then the locals of the blocks of a
/// case analysis or primitive branch it holds.
pub open spec fn block_locals(block: closure::Block) -> Seq<LiveValue>
    decreases block, 0nat,
{
    bindings_locals(block.bindings@, 0)
}

pub open spec fn bindings_locals(bindings: Seq<closure::Binding>, from: nat) -> Seq<LiveValue>
    decreases bindings, bindings.len() - from,
{
    if from >= bindings.len() {
        seq![]
    } else {
        pattern_locals(bindings[from as int].pattern, bindings[from as int].span) + operation_locals(
            bindings[from as int].operation,
        ) + bindings_locals(bindings, from + 1)
    }
}

pub open spec fn operation_locals(operation: closure::Operation) -> Seq<LiveValue>
    decreases operation, 0nat,
{
    match operation {
        closure::Operation::Case { arms, .. } => arms_locals(arms@, 0),
        closure::Operation::PrimitiveBranch { otherwise, then, .. } => block_locals(*otherwise)
            + block_locals(*then),
        _ => seq![],
    }
}

pub open spec fn arms_locals(arms: Seq<closure::CaseArm>, from: nat) -> Seq<LiveValue>
    decreases arms, arms.len() - from,
{
    if from >= arms.len() {
        seq![]
    } else {
        pattern_locals(arms[from as int].pattern, arms[from as int].span) + block_locals(
            arms[from as int].value,
        ) + arms_locals(arms, from + 1)
    }
}

/// `after` is `before` followed by copies of `added`.
pub open spec fn appends_copies(before: Seq<LiveValue>, after: Seq<LiveValue>, added: Seq<LiveValue>) -> bool {
    &&& after.len() == before.len() + added.len()
    &&& forall|i: int| 0 <= i < before.len() ==> #[trigger] after[i] == before[i]
    &&& forall|j: int|
        0 <= j < added.len() ==> copies_live_value(#[trigger] after[before.len() + j], added[j])
}

proof fn lemma_appends_copies(
    a: Seq<LiveValue>,
    b: Seq<LiveValue>,
    c: Seq<LiveValue>,
    x: Seq<LiveValue>,
    y: Seq<LiveValue>,
)
    requires
        appends_copies(a, b, x),
        appends_copies(b, c, y),
    ensures
        appends_copies(a, c, x + y),
{
    assert forall|j: int| 0 <= j < (x + y).len() implies copies_live_value(
        #[trigger] c[a.len() + j],
        (x + y)[j],
    ) by {
        if j < x.len() {
            assert(c[a.len() + j] == b[a.len() + j]);
        } else {
            assert(c[b.len() + (j - x.len())] == c[a.len() + j]);
        }
    }
}

proof fn lemma_appends_nothing(a: Seq<LiveValue>)
    ensures
        appends_copies(a, a, seq![]),
{
}

/// Adds the locals a pattern binds, with the span `span`.
fn collect_pattern_values(pattern: &Pattern, span: crate::source::Span, values: &mut Vec<LiveValue>)
    ensures
        appends_copies(old(values)@, final(values)@, pattern_locals(*pattern, span)),
    decreases pattern, 1nat,
{
    match pattern {
        Pattern::Binding { id, ty } => {
            values.push(LiveValue { id: *id, ty: duplicate_type(ty), span });
            proof {
                assert(values@[old(values)@.len() as int] == values@.last());
            }
        },
        Pattern::Wildcard { .. } => {},
        Pattern::Product { elements, .. } => {
            collect_element_values(elements, span, values);
        },
    }
}

fn collect_element_values(elements: &Vec<Pattern>, span: crate::source::Span, values: &mut Vec<LiveValue>)
    ensures
        appends_copies(old(values)@, final(values)@, elements_locals(elements@, span, 0)),
    decreases elements, 2nat,
{
    let ghost start = values@;
    let ghost mut done: Seq<LiveValue> = seq![];
    let mut k: usize = 0;
    assert(done + elements_locals(elements@, span, 0) =~= elements_locals(elements@, span, 0));
    while k < elements.len()
        invariant
            k <= elements@.len(),
            start == old(values)@,
            appends_copies(start, values@, done),
            done + elements_locals(elements@, span, k as nat) == elements_locals(elements@, span, 0),
        decreases elements@.len() - k,
    {
        let ghost before = values@;
        collect_pattern_values(&elements[k], span, values);
        proof {
            let added = pattern_locals(elements@[k as int], span);
            lemma_appends_copies(start, before, values@, done, added);
            assert((done + added) + elements_locals(elements@, span, (k + 1) as nat) =~= done
                + elements_locals(elements@, span, k as nat));
            done = done + added;
        }
        k = k + 1;
    }
    assert(done =~= done + elements_locals(elements@, span, k as nat));
}


/// Adds the locals that the blocks of a case analysis or a primitive branch bind.
fn collect_operation_values(operation: &closure::Operation, values: &mut Vec<LiveValue>)
    ensures
        appends_copies(old(values)@, final(values)@, operation_locals(*operation)),
    decreases operation, 0nat,
{
    let ghost start = values@;
    match operation {
        closure::Operation::Case { arms, .. } => {
            let ghost mut done: Seq<LiveValue> = seq![];
            let mut j: usize = 0;
            assert(done + arms_locals(arms@, 0) =~= arms_locals(arms@, 0));
            while j < arms.len()
                invariant
                    j <= arms@.len(),
                    start == old(values)@,
                    appends_copies(start, values@, done),
                    done + arms_locals(arms@, j as nat) == arms_locals(arms@, 0),
                    (*operation matches closure::Operation::Case { arms: a, .. } && a == *arms),
                decreases arms@.len() - j,
            {
                let arm = &arms[j];
                let ghost before = values@;
                collect_pattern_values(&arm.pattern, arm.span, values);
                let ghost after_pattern = values@;
                proof {
                    assert(decreases_to!(*operation => arms@[j as int].value));
                }
                collect_local_values(&arm.value, values);
                proof {
                    let p = pattern_locals(arm.pattern, arm.span);
                    let q = block_locals(arm.value);
                    lemma_appends_copies(start, before, after_pattern, done, p);
                    lemma_appends_copies(start, after_pattern, values@, done + p, q);
                    assert((done + p + q) + arms_locals(arms@, (j + 1) as nat) =~= done + arms_locals(
                        arms@,
                        j as nat,
                    ));
                    done = done + p + q;
                }
                j = j + 1;
            }
            assert(done =~= done + arms_locals(arms@, j as nat));
        },
        closure::Operation::PrimitiveBranch { otherwise, then, .. } => {
            collect_local_values(otherwise, values);
            let ghost middle = values@;
            collect_local_values(then, values);
            proof {
                lemma_appends_copies(start, middle, values@, block_locals(**otherwise), block_locals(**then));
            }
        },
        _ => {
            proof {
                lemma_appends_nothing(values@);
            }
        },
    }
}

/// Adds the locals a block binds.
fn collect_local_values(block: &closure::Block, values: &mut Vec<LiveValue>)
    ensures
        appends_copies(old(values)@, final(values)@, block_locals(*block)),
    decreases block, 1nat,
{
    let ghost start = values@;
    let ghost mut done: Seq<LiveValue> = seq![];
    let mut k: usize = 0;
    assert(done + bindings_locals(block.bindings@, 0) =~= bindings_locals(block.bindings@, 0));
    while k < block.bindings.len()
        invariant
            k <= block.bindings@.len(),
            start == old(values)@,
            appends_copies(start, values@, done),
            done + bindings_locals(block.bindings@, k as nat) == bindings_locals(block.bindings@, 0),
        decreases block.bindings@.len() - k,
    {
        let binding = &block.bindings[k];
        let ghost before = values@;
        collect_pattern_values(&binding.pattern, binding.span, values);
        let ghost after_pattern = values@;
        collect_operation_values(&binding.operation, values);
        proof {
            let p = pattern_locals(binding.pattern, binding.span);
            let q = operation_locals(binding.operation);
            lemma_appends_copies(start, before, after_pattern, done, p);
            lemma_appends_copies(start, after_pattern, values@, done + p, q);
            assert((done + p + q) + bindings_locals(block.bindings@, (k + 1) as nat) =~= done
                + bindings_locals(block.bindings@, k as nat));
            done = done + p + q;
        }
        k = k + 1;
    }
    assert(done =~= done + bindings_locals(block.bindings@, k as nat));
}

/// The locals of a body: its parameter, if it binds one, then those its block binds.
pub open spec fn parameter_locals(parameter: Option<closure::Parameter>) -> Seq<LiveValue> {
    match parameter {
        Some(p) => match p.binding {
            Some(id) => seq![LiveValue { id, ty: p.ty, span: p.span }],
            None => seq![],
        },
        None => seq![],
    }
}

pub open spec fn body_locals(block: closure::Block, parameter: Option<closure::Parameter>) -> Seq<LiveValue> {
    parameter_locals(parameter) + block_locals(block)
}

/// The locals of a body that may have to live across a call.
pub fn local_values(block: &closure::Block, parameter: Option<&closure::Parameter>) -> (values: Vec<LiveValue>)
    ensures
        appends_copies(seq![], values@, body_locals(*block, match parameter {
            Some(p) => Some(*p),
            None => None,
        })),
{
    let mut values: Vec<LiveValue> = Vec::new();
    match parameter {
        Some(parameter) => match parameter.binding {
            Some(id) => {
                values.push(LiveValue { id, ty: duplicate_type(&parameter.ty), span: parameter.span });
            },
            None => {},
        },
        None => {},
    }
    let ghost first = values@;
    collect_local_values(block, &mut values);
    proof {
        let head = parameter_locals(match parameter {
            Some(p) => Some(*p),
            None => None,
        });
        assert(appends_copies(seq![], first, head)) by {
            if head.len() > 0 {
                assert(first[0int] == first[0int]);
            }
        }
        lemma_appends_copies(seq![], first, values@, head, block_locals(*block));
    }
    values
}

} // verus!
