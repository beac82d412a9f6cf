use vstd::prelude::*;

use crate::closure::ast::{Atom, AtomKind, Pattern, Reference};
use crate::core_ir::ast::ValueId;

use super::ast::{Binding, Operation, State, StateId, Terminator, successor_ids, targets_in_range};

verus! {

/// The value that a binding pattern names, if it names one.
pub open spec fn pattern_value(pattern: Pattern) -> Option<ValueId> {
    match pattern {
        Pattern::Binding { id, .. } => Some(id),
        _ => None,
    }
}

/// The value that a state's input names, if it names one.
pub open spec fn input_value(input: Option<Pattern>) -> Option<ValueId> {
    match input {
        Some(pattern) => pattern_value(pattern),
        None => None,
    }
}

/// The value that an atom refers to, if it refers to a bound value.
pub open spec fn reference_value(atom: Atom) -> Option<ValueId> {
    match atom.kind {
        AtomKind::Reference(Reference::Binding(id)) => Some(id),
        _ => None,
    }
}

/// A pattern that binds or ignores a value of the unit type.
pub open spec fn is_unit(pattern: Pattern) -> bool {
    match pattern {
        Pattern::Binding { ty, .. } => ty is Unit,
        Pattern::Wildcard { ty, .. } => ty is Unit,
        Pattern::Product { .. } => false,
    }
}

pub open spec fn is_unit_input(input: Option<Pattern>) -> bool {
    match input {
        Some(pattern) => is_unit(pattern),
        None => false,
    }
}

pub open spec fn pattern_option(pattern: Option<&Pattern>) -> Option<Pattern> {
    match pattern {
        Some(p) => Some(*p),
        None => None,
    }
}

/// Where `value` goes through `bindings` that only copy it from one name to the next: the last
/// name, or `None` where a binding does anything else.
pub open spec fn copies_through(bindings: Seq<Binding>, value: ValueId) -> Option<ValueId>
    decreases bindings.len(),
{
    if bindings.len() == 0 {
        Some(value)
    } else {
        match copies_through(bindings.drop_last(), value) {
            Some(current) => match bindings.last().operation {
                Operation::Atom(atom) => if reference_value(atom) == Some(current) {
                    pattern_value(bindings.last().pattern)
                } else {
                    None
                },
                _ => None,
            },
            None => None,
        }
    }
}

/// One step of following a value: the walk ends with whether the value is returned unchanged,
/// or goes on in another state with the name the value has there.
pub enum Step {
    Finished(bool),
    Continue(usize, ValueId),
}

/// Follows `value` through the state `state`.
pub open spec fn forward_step(states: Seq<State>, state: usize, value: ValueId) -> Step {
    let current = states[state as int];
    match copies_through(current.bindings@, value) {
        None => Step::Finished(false),
        Some(last) => match current.terminator {
            Terminator::Return(result) => Step::Finished(reference_value(result) == Some(last)),
            Terminator::Goto(target) => if states[target.0 as int].input is None {
                Step::Continue(target.0, last)
            } else {
                Step::Finished(false)
            },
            Terminator::Jump { target, value: argument } => if reference_value(argument) == Some(
                last,
            ) {
                match input_value(states[target.0 as int].input) {
                    Some(input) => Step::Continue(target.0, input),
                    None => Step::Finished(false),
                }
            } else {
                Step::Finished(false)
            },
            _ => Step::Finished(false),
        },
    }
}

/// Following `value` from `state` returns it unchanged within `fuel` states.
pub open spec fn forwards_within(states: Seq<State>, state: usize, value: ValueId, fuel: nat) -> bool
    decreases fuel,
{
    fuel > 0 && match forward_step(states, state, value) {
        Step::Finished(returned) => returned,
        Step::Continue(next, renamed) => forwards_within(states, next, renamed, (fuel - 1) as nat),
    }
}

/// Every binding copies a unit value into a unit pattern.
pub open spec fn copies_unit(bindings: Seq<Binding>) -> bool {
    forall|k: int|
        #![trigger bindings[k]]
        0 <= k < bindings.len() ==> is_unit(bindings[k].pattern) && (
        bindings[k].operation matches Operation::Atom(atom) && atom.ty is Unit)
}

pub enum UnitStep {
    Finished(bool),
    Continue(usize),
}

/// Follows a unit result through the state `state`.
pub open spec fn unit_step(states: Seq<State>, state: usize) -> UnitStep {
    let current = states[state as int];
    if !copies_unit(current.bindings@) {
        UnitStep::Finished(false)
    } else {
        match current.terminator {
            Terminator::Return(result) => UnitStep::Finished(result.ty is Unit),
            Terminator::Goto(target) => if states[target.0 as int].input is None {
                UnitStep::Continue(target.0)
            } else {
                UnitStep::Finished(false)
            },
            Terminator::Jump { target, value } => if value.ty is Unit && is_unit_input(
                states[target.0 as int].input,
            ) {
                UnitStep::Continue(target.0)
            } else {
                UnitStep::Finished(false)
            },
            _ => UnitStep::Finished(false),
        }
    }
}

/// From `state`, control reaches a return of a unit value within `fuel` states, doing nothing
/// but move unit values on the way.
pub open spec fn delivers_unit_within(states: Seq<State>, state: usize, fuel: nat) -> bool
    decreases fuel,
{
    fuel > 0 && match unit_step(states, state) {
        UnitStep::Finished(returned) => returned,
        UnitStep::Continue(next) => delivers_unit_within(states, next, (fuel - 1) as nat),
    }
}

/// The state `start`, entered with a result, returns that result unchanged: a unit result that
/// is only moved to a unit return, or a named value that is only copied, passed to other states
/// and finally returned.
pub open spec fn forwards_input(states: Seq<State>, start: usize) -> bool {
    if is_unit_input(states[start as int].input) {
        exists|fuel: nat| delivers_unit_within(states, start, fuel)
    } else {
        match input_value(states[start as int].input) {
            Some(value) => exists|fuel: nat| forwards_within(states, start, value, fuel),
            None => false,
        }
    }
}

// The values that a walk can carry: the names of state inputs and of bindings.
pub open spec fn binding_values(bindings: Seq<Binding>) -> Seq<ValueId>
    decreases bindings.len(),
{
    if bindings.len() == 0 {
        seq![]
    } else {
        binding_values(bindings.drop_last()) + match pattern_value(bindings.last().pattern) {
            Some(id) => seq![id],
            None => seq![],
        }
    }
}

pub open spec fn input_values(input: Option<Pattern>) -> Seq<ValueId> {
    match input_value(input) {
        Some(id) => seq![id],
        None => seq![],
    }
}

pub open spec fn state_values(state: State) -> Seq<ValueId> {
    input_values(state.input) + binding_values(state.bindings@)
}

pub open spec fn all_values(states: Seq<State>, n: int) -> Seq<ValueId>
    decreases n,
{
    if n <= 0 {
        seq![]
    } else {
        all_values(states, n - 1) + state_values(states[n - 1])
    }
}

proof fn lemma_binding_values(bindings: Seq<Binding>, k: int)
    requires
        0 <= k < bindings.len(),
        pattern_value(bindings[k].pattern) is Some,
    ensures
        binding_values(bindings).contains(pattern_value(bindings[k].pattern)->0),
    decreases bindings.len(),
{
    let v = pattern_value(bindings[k].pattern)->0;
    let rest = bindings.drop_last();
    let tail = match pattern_value(bindings.last().pattern) {
        Some(id) => seq![id],
        None => seq![],
    };
    if k == bindings.len() - 1 {
        assert((binding_values(rest) + tail)[binding_values(rest).len() as int] == v);
    } else {
        assert(rest[k] == bindings[k]);
        lemma_binding_values(rest, k);
        let w = choose|w: int| 0 <= w < binding_values(rest).len() && binding_values(rest)[w] == v;
        assert((binding_values(rest) + tail)[w] == v);
    }
}

proof fn lemma_all_values(states: Seq<State>, n: int, s: int, v: ValueId)
    requires
        0 <= s < n <= states.len(),
        state_values(states[s]).contains(v),
    ensures
        all_values(states, n).contains(v),
    decreases n,
{
    let before = all_values(states, n - 1);
    if s == n - 1 {
        let w = choose|w: int| 0 <= w < state_values(states[s]).len() && state_values(states[s])[w] == v;
        assert((before + state_values(states[s]))[before.len() + w] == v);
    } else {
        lemma_all_values(states, n - 1, s, v);
        let w = choose|w: int| 0 <= w < before.len() && before[w] == v;
        assert((before + state_values(states[n - 1]))[w] == v);
    }
}

/// The input of state `s` and the names its bindings give are values a walk can carry.
proof fn lemma_state_values(states: Seq<State>, s: int)
    requires
        0 <= s < states.len(),
    ensures
        input_value(states[s].input) matches Some(v) ==> all_values(states, states.len() as int).contains(v),
        forall|k: int|
            0 <= k < states[s].bindings@.len() && pattern_value(
                #[trigger] states[s].bindings@[k].pattern,
            ) is Some ==> all_values(states, states.len() as int).contains(
                pattern_value(states[s].bindings@[k].pattern)->0,
            ),
{
    let sv = state_values(states[s]);
    let head = input_values(states[s].input);
    if input_value(states[s].input) is Some {
        assert(sv[0] == input_value(states[s].input)->0);
        lemma_all_values(states, states.len() as int, s, input_value(states[s].input)->0);
    }
    assert forall|k: int|
        0 <= k < states[s].bindings@.len() && pattern_value(
            #[trigger] states[s].bindings@[k].pattern,
        ) is Some implies all_values(states, states.len() as int).contains(
        pattern_value(states[s].bindings@[k].pattern)->0,
    ) by {
        let v = pattern_value(states[s].bindings@[k].pattern)->0;
        lemma_binding_values(states[s].bindings@, k);
        let w = choose|w: int|
            0 <= w < binding_values(states[s].bindings@).len() && binding_values(
                states[s].bindings@,
            )[w] == v;
        assert(sv[head.len() + w] == v);
        lemma_all_values(states, states.len() as int, s, v);
    }
}

/// Copying through bindings ends in the value it started with or in a name a binding gives.
proof fn lemma_copies_through(bindings: Seq<Binding>, value: ValueId)
    ensures
        copies_through(bindings, value) matches Some(last) ==> last == value || exists|k: int|
            0 <= k < bindings.len() && pattern_value(#[trigger] bindings[k].pattern) == Some(last),
    decreases bindings.len(),
{
    if bindings.len() > 0 {
        lemma_copies_through(bindings.drop_last(), value);
        if let Some(last) = copies_through(bindings, value) {
            let k = bindings.len() - 1;
            assert(pattern_value(bindings[k].pattern) == Some(last));
        }
    }
}

// Pairs of a state and a value that a walk can be at: a finite set of at most `n * m` pairs.
pub open spec fn pair_row(state: usize, values: Seq<ValueId>, k: int) -> Set<(usize, ValueId)>
    decreases k,
{
    if k <= 0 {
        Set::empty()
    } else {
        pair_row(state, values, k - 1).insert((state, values[k - 1]))
    }
}

pub open spec fn pair_grid(n: int, values: Seq<ValueId>) -> Set<(usize, ValueId)>
    decreases n,
{
    if n <= 0 {
        Set::empty()
    } else {
        pair_grid(n - 1, values).union(pair_row((n - 1) as usize, values, values.len() as int))
    }
}

proof fn lemma_pair_row(state: usize, values: Seq<ValueId>, k: int)
    requires
        0 <= k <= values.len(),
    ensures
        pair_row(state, values, k).finite(),
        pair_row(state, values, k).len() <= k,
        forall|i: int| 0 <= i < k ==> pair_row(state, values, k).contains((state, #[trigger] values[i])),
    decreases k,
{
    if k > 0 {
        lemma_pair_row(state, values, k - 1);
    }
}

proof fn lemma_pair_grid(n: int, values: Seq<ValueId>)
    requires
        0 <= n <= usize::MAX + 1,
    ensures
        pair_grid(n, values).finite(),
        pair_grid(n, values).len() <= n * values.len(),
        forall|s: usize, v: ValueId|
            s < n && values.contains(v) ==> #[trigger] pair_grid(n, values).contains((s, v)),
    decreases n,
{
    if n > 0 {
        lemma_pair_grid(n - 1, values);
        let row = pair_row((n - 1) as usize, values, values.len() as int);
        lemma_pair_row((n - 1) as usize, values, values.len() as int);
        vstd::set_lib::lemma_len_union(pair_grid(n - 1, values), row);
        assert((n - 1) * values.len() + values.len() == n * values.len()) by (nonlinear_arith);
        assert forall|s: usize, v: ValueId|
            s < n && values.contains(v) implies #[trigger] pair_grid(n, values).contains((s, v)) by {
            if s == n - 1 {
                let i = choose|i: int| 0 <= i < values.len() && values[i] == v;
                assert(row.contains((s, values[i])));
            }
        }
    }
}

/// A walk that only meets states it has met, never finishes.
proof fn lemma_cycle(states: Seq<State>, path: Seq<(usize, ValueId)>, j: int, fuel: nat)
    requires
        0 <= j < path.len(),
        forall|i: int|
            #![trigger path[i]]
            j <= i < path.len() ==> forward_step(states, path[i].0, path[i].1) == if i + 1
                < path.len() {
                Step::Continue(path[i + 1].0, path[i + 1].1)
            } else {
                Step::Continue(path[j].0, path[j].1)
            },
    ensures
        forall|i: int|
            #![trigger path[i]]
            j <= i < path.len() ==> !forwards_within(states, path[i].0, path[i].1, fuel),
    decreases fuel,
{
    if fuel > 0 {
        lemma_cycle(states, path, j, (fuel - 1) as nat);
        assert forall|i: int|
            #![trigger path[i]]
            j <= i < path.len() implies !forwards_within(states, path[i].0, path[i].1, fuel) by {
            if i + 1 < path.len() {
                assert(path[i + 1] == path[i + 1]);
            } else {
                assert(path[j] == path[j]);
            }
        }
    }
}

/// A walk of unit results that only meets states it has met, never finishes.
proof fn lemma_unit_cycle(states: Seq<State>, path: Seq<usize>, j: int, fuel: nat)
    requires
        0 <= j < path.len(),
        forall|i: int|
            #![trigger path[i]]
            j <= i < path.len() ==> unit_step(states, path[i]) == if i + 1 < path.len() {
                UnitStep::Continue(path[i + 1])
            } else {
                UnitStep::Continue(path[j])
            },
    ensures
        forall|i: int|
            #![trigger path[i]]
            j <= i < path.len() ==> !delivers_unit_within(states, path[i], fuel),
    decreases fuel,
{
    if fuel > 0 {
        lemma_unit_cycle(states, path, j, (fuel - 1) as nat);
        assert forall|i: int|
            #![trigger path[i]]
            j <= i < path.len() implies !delivers_unit_within(states, path[i], fuel) by {
            if i + 1 < path.len() {
                assert(path[i + 1] == path[i + 1]);
            } else {
                assert(path[j] == path[j]);
            }
        }
    }
}

pub open spec fn state_range(n: int) -> Set<usize>
    decreases n,
{
    if n <= 0 {
        Set::empty()
    } else {
        state_range(n - 1).insert((n - 1) as usize)
    }
}

proof fn lemma_state_range(n: int)
    requires
        0 <= n <= usize::MAX + 1,
    ensures
        state_range(n).finite(),
        state_range(n).len() <= n,
        forall|s: usize| s < n ==> #[trigger] state_range(n).contains(s),
    decreases n,
{
    if n > 0 {
        lemma_state_range(n - 1);
    }
}

/// Whether a pattern binds or ignores a unit value.
fn is_unit_pattern(pattern: Option<&Pattern>) -> (unit: bool)
    ensures
        unit == is_unit_input(pattern_option(pattern)),
{
    match pattern {
        Some(Pattern::Binding { ty, .. }) => matches!(ty, crate::check::ast::Type::Unit),
        Some(Pattern::Wildcard { ty, .. }) => matches!(ty, crate::check::ast::Type::Unit),
        _ => false,
    }
}

/// The value a pattern names, if it is a plain binding.
fn binding_id(pattern: Option<&Pattern>) -> (id: Option<ValueId>)
    ensures
        id == input_value(pattern_option(pattern)),
{
    match pattern {
        Some(Pattern::Binding { id, .. }) => Some(*id),
        _ => None,
    }
}

/// The value an atom refers to, if it refers to a bound value.
fn binding_reference(atom: &Atom) -> (id: Option<ValueId>)
    ensures
        id == reference_value(*atom),
{
    match atom.kind {
        AtomKind::Reference(Reference::Binding(id)) => Some(id),
        _ => None,
    }
}

/// Follows `value` through the bindings of `state`.
fn copy_value(state: &State, value: ValueId) -> (last: Option<ValueId>)
    ensures
        last == copies_through(state.bindings@, value),
{
    let mut current = value;
    let mut index: usize = 0;
    while index < state.bindings.len()
        invariant
            index <= state.bindings@.len(),
            copies_through(state.bindings@.take(index as int), value) == Some(current),
        decreases state.bindings@.len() - index,
    {
        let binding = &state.bindings[index];
        let ghost prefix = state.bindings@.take(index + 1);
        assert(prefix.drop_last() =~= state.bindings@.take(index as int));
        assert(prefix.last() == *binding);
        let next = match binding_id(Some(&binding.pattern)) {
            Some(next) => next,
            None => {
                proof {
                    lemma_copies_none(state.bindings@, index as int + 1, value);
                }
                return None;
            },
        };
        let copied = match &binding.operation {
            Operation::Atom(atom) => binding_reference(atom) == Some(current),
            _ => false,
        };
        if !copied {
            proof {
                lemma_copies_none(state.bindings@, index as int + 1, value);
            }
            return None;
        }
        current = next;
        index = index + 1;
    }
    assert(state.bindings@.take(state.bindings@.len() as int) =~= state.bindings@);
    Some(current)
}

/// Once copying fails on a prefix, it fails on the whole.
proof fn lemma_copies_none(bindings: Seq<Binding>, k: int, value: ValueId)
    requires
        0 <= k <= bindings.len(),
        copies_through(bindings.take(k), value) is None,
    ensures
        copies_through(bindings, value) is None,
    decreases bindings.len() - k,
{
    if k < bindings.len() {
        let next = bindings.take(k + 1);
        assert(next.drop_last() =~= bindings.take(k));
        lemma_copies_none(bindings, k + 1, value);
    } else {
        assert(bindings.take(k) =~= bindings);
    }
}

/// One step of following `value` through `state`.
fn advance(states: &Vec<State>, state: StateId, value: ValueId) -> (step: Step)
    requires
        state.0 < states@.len(),
        targets_in_range(states@),
    ensures
        step == forward_step(states@, state.0, value),
        step matches Step::Continue(next, _) ==> next < states@.len(),
{
    let current = &states[state.0];
    let last = match copy_value(current, value) {
        Some(last) => last,
        None => {
            return Step::Finished(false);
        },
    };
    match &current.terminator {
        Terminator::Return(result) => Step::Finished(binding_reference(result) == Some(last)),
        Terminator::Goto(target) => {
            assert(successor_ids(current.terminator)[0] == *target);
            if states[target.0].input.is_none() {
                Step::Continue(target.0, last)
            } else {
                Step::Finished(false)
            }
        },
        Terminator::Jump { target, value: argument } => {
            assert(successor_ids(current.terminator)[0] == *target);
            if binding_reference(argument) == Some(last) {
                match binding_id(states[target.0].input.as_ref()) {
                    Some(input) => Step::Continue(target.0, input),
                    None => Step::Finished(false),
                }
            } else {
                Step::Finished(false)
            }
        },
        _ => Step::Finished(false),
    }
}

/// One step of following a unit result through `state`.
fn advance_unit(states: &Vec<State>, state: StateId) -> (step: UnitStep)
    requires
        state.0 < states@.len(),
        targets_in_range(states@),
    ensures
        step == unit_step(states@, state.0),
        step matches UnitStep::Continue(next) ==> next < states@.len(),
{
    let current = &states[state.0];
    let mut index: usize = 0;
    while index < current.bindings.len()
        invariant
            index <= current.bindings@.len(),
            state.0 < states@.len(),
            *current == states@[state.0 as int],
            forall|k: int|
                #![trigger current.bindings@[k]]
                0 <= k < index ==> is_unit(current.bindings@[k].pattern) && (
                current.bindings@[k].operation matches Operation::Atom(atom) && atom.ty is Unit),
        decreases current.bindings@.len() - index,
    {
        let binding = &current.bindings[index];
        assert(current.bindings@[index as int] == *binding);
        if !is_unit_pattern(Some(&binding.pattern)) {
            assert(!copies_unit(current.bindings@));
            return UnitStep::Finished(false);
        }
        let unit_atom = match &binding.operation {
            Operation::Atom(atom) => matches!(atom.ty, crate::check::ast::Type::Unit),
            _ => false,
        };
        if !unit_atom {
            assert(!copies_unit(current.bindings@));
            return UnitStep::Finished(false);
        }
        index = index + 1;
    }
    match &current.terminator {
        Terminator::Return(result) => UnitStep::Finished(
            matches!(result.ty, crate::check::ast::Type::Unit),
        ),
        Terminator::Goto(target) => {
            assert(successor_ids(current.terminator)[0] == *target);
            if states[target.0].input.is_none() {
                UnitStep::Continue(target.0)
            } else {
                UnitStep::Finished(false)
            }
        },
        Terminator::Jump { target, value } => {
            assert(successor_ids(current.terminator)[0] == *target);
            if matches!(value.ty, crate::check::ast::Type::Unit) && is_unit_pattern(
                states[target.0].input.as_ref(),
            ) {
                UnitStep::Continue(target.0)
            } else {
                UnitStep::Finished(false)
            }
        },
        _ => UnitStep::Finished(false),
    }
}

fn holds_pair(visited: &Vec<(usize, ValueId)>, state: usize, value: ValueId) -> (found: Option<
    usize,
>)
    ensures
        match found {
            Some(j) => j < visited@.len() && visited@[j as int] == (state, value),
            None => !visited@.contains((state, value)),
        },
{
    let mut k: usize = 0;
    while k < visited.len()
        invariant
            k <= visited@.len(),
            forall|i: int| 0 <= i < k ==> visited@[i] != (state, value),
        decreases visited@.len() - k,
    {
        if visited[k].0 == state && visited[k].1 == value {
            return Some(k);
        }
        k = k + 1;
    }
    None
}

fn holds_state(visited: &Vec<usize>, state: usize) -> (found: Option<usize>)
    ensures
        match found {
            Some(j) => j < visited@.len() && visited@[j as int] == state,
            None => !visited@.contains(state),
        },
{
    let mut k: usize = 0;
    while k < visited.len()
        invariant
            k <= visited@.len(),
            forall|i: int| 0 <= i < k ==> visited@[i] != state,
        decreases visited@.len() - k,
    {
        if visited[k] == state {
            return Some(k);
        }
        k = k + 1;
    }
    None
}

/// Whether a unit result entering `start` reaches a return of a unit value, only moved on the way.
fn returns_unit(states: &Vec<State>, start: StateId) -> (delivers: bool)
    requires
        start.0 < states@.len(),
        targets_in_range(states@),
    ensures
        delivers == exists|fuel: nat| delivers_unit_within(states@, start.0, fuel),
{
    let length = states.len();
    let ghost n = length as int;
    proof {
        lemma_state_range(n);
    }
    let mut state = start;
    let mut visited: Vec<usize> = Vec::new();
    loop
        invariant
            targets_in_range(states@),
            n == states@.len(),
            state.0 < n,
            state_range(n).finite(),
            state_range(n).len() <= n,
            forall|s: usize| s < n ==> #[trigger] state_range(n).contains(s),
            (exists|fuel: nat| delivers_unit_within(states@, start.0, fuel)) == (exists|fuel: nat|
                delivers_unit_within(states@, state.0, fuel)),
            visited@.no_duplicates(),
            forall|i: int| 0 <= i < visited@.len() ==> #[trigger] visited@[i] < n,
            visited@.len() <= n,
            forall|i: int|
                #![trigger visited@[i]]
                0 <= i < visited@.len() ==> unit_step(states@, visited@[i]) == if i + 1
                    < visited@.len() {
                    UnitStep::Continue(visited@[i + 1])
                } else {
                    UnitStep::Continue(state.0)
                },
        decreases n - visited@.len(),
    {
        match holds_state(&visited, state.0) {
            Some(j) => {
                proof {
                    assert forall|fuel: nat| !delivers_unit_within(states@, state.0, fuel) by {
                        lemma_unit_cycle(states@, visited@, j as int, fuel);
                        assert(visited@[j as int] == state.0);
                    }
                }
                return false;
            },
            None => {},
        }
        let ghost before = visited@;
        visited.push(state.0);
        proof {
            assert(visited@.no_duplicates());
            assert(visited@.to_set().subset_of(state_range(n)));
            visited@.unique_seq_to_set();
            vstd::set_lib::lemma_len_subset(visited@.to_set(), state_range(n));
        }
        match advance_unit(states, state) {
            UnitStep::Finished(delivered) => {
                proof {
                    if delivered {
                        assert(delivers_unit_within(states@, state.0, 1));
                    } else {
                        assert forall|fuel: nat| !delivers_unit_within(states@, state.0, fuel) by {}
                    }
                }
                return delivered;
            },
            UnitStep::Continue(next) => {
                proof {
                    assert((exists|fuel: nat| delivers_unit_within(states@, state.0, fuel)) == (
                    exists|fuel: nat| delivers_unit_within(states@, next, fuel))) by {
                        if exists|fuel: nat| delivers_unit_within(states@, state.0, fuel) {
                            let fuel = choose|fuel: nat| delivers_unit_within(states@, state.0, fuel);
                            assert(delivers_unit_within(states@, next, (fuel - 1) as nat));
                        }
                        if exists|fuel: nat| delivers_unit_within(states@, next, fuel) {
                            let fuel = choose|fuel: nat| delivers_unit_within(states@, next, fuel);
                            assert(delivers_unit_within(states@, state.0, fuel + 1));
                        }
                    }
                    assert forall|i: int|
                        #![trigger visited@[i]]
                        0 <= i < visited@.len() implies unit_step(states@, visited@[i]) == if i + 1
                            < visited@.len() {
                            UnitStep::Continue(visited@[i + 1])
                        } else {
                            UnitStep::Continue(next)
                        } by {
                        if i + 1 < visited@.len() {
                            assert(visited@[i] == before[i]);
                            if i + 1 < before.len() {
                                assert(visited@[i + 1] == before[i + 1]);
                            }
                        }
                    }
                }
                state = StateId(next);
            },
        }
    }
}

/// Whether the state `start`, entered with a result, returns that result unchanged.
fn returns_input(states: &Vec<State>, start: StateId) -> (forwards: bool)
    requires
        start.0 < states@.len(),
        targets_in_range(states@),
    ensures
        forwards == forwards_input(states@, start.0),
{
    if is_unit_pattern(states[start.0].input.as_ref()) {
        return returns_unit(states, start);
    }
    let first = match binding_id(states[start.0].input.as_ref()) {
        Some(first) => first,
        None => {
            return false;
        },
    };
    let length = states.len();
    let ghost n = length as int;
    let ghost values = all_values(states@, n);
    proof {
        lemma_pair_grid(n, values);
        lemma_state_values(states@, start.0 as int);
    }
    let mut state = start;
    let mut value = first;
    let mut visited: Vec<(usize, ValueId)> = Vec::new();
    loop
        invariant
            targets_in_range(states@),
            n == states@.len(),
            values == all_values(states@, n),
            state.0 < n,
            values.contains(value),
            pair_grid(n, values).finite(),
            pair_grid(n, values).len() <= n * values.len(),
            forall|s: usize, v: ValueId|
                s < n && values.contains(v) ==> #[trigger] pair_grid(n, values).contains((s, v)),
            forwards_input(states@, start.0) == (exists|fuel: nat|
                forwards_within(states@, state.0, value, fuel)),
            visited@.no_duplicates(),
            forall|i: int|
                0 <= i < visited@.len() ==> pair_grid(n, values).contains(#[trigger] visited@[i]),
            visited@.len() <= n * values.len(),
            forall|i: int|
                #![trigger visited@[i]]
                0 <= i < visited@.len() ==> forward_step(states@, visited@[i].0, visited@[i].1)
                    == if i + 1 < visited@.len() {
                    Step::Continue(visited@[i + 1].0, visited@[i + 1].1)
                } else {
                    Step::Continue(state.0, value)
                },
        decreases n * values.len() - visited@.len(),
    {
        match holds_pair(&visited, state.0, value) {
            Some(j) => {
                proof {
                    assert forall|fuel: nat| !forwards_within(states@, state.0, value, fuel) by {
                        lemma_cycle(states@, visited@, j as int, fuel);
                        assert(visited@[j as int] == (state.0, value));
                    }
                }
                return false;
            },
            None => {},
        }
        let ghost before = visited@;
        visited.push((state.0, value));
        proof {
            assert(visited@.no_duplicates());
            assert(visited@.to_set().subset_of(pair_grid(n, values)));
            visited@.unique_seq_to_set();
            vstd::set_lib::lemma_len_subset(visited@.to_set(), pair_grid(n, values));
        }
        match advance(states, state, value) {
            Step::Finished(returned) => {
                proof {
                    if returned {
                        assert(forwards_within(states@, state.0, value, 1));
                    } else {
                        assert forall|fuel: nat| !forwards_within(states@, state.0, value, fuel) by {}
                    }
                }
                return returned;
            },
            Step::Continue(next, renamed) => {
                proof {
                    let current = states@[state.0 as int];
                    lemma_state_values(states@, state.0 as int);
                    lemma_copies_through(current.bindings@, value);
                    match current.terminator {
                        Terminator::Jump { target, .. } => {
                            lemma_state_values(states@, target.0 as int);
                        },
                        _ => {},
                    }
                    assert(values.contains(renamed));
                    assert((exists|fuel: nat| forwards_within(states@, state.0, value, fuel)) == (
                    exists|fuel: nat| forwards_within(states@, next, renamed, fuel))) by {
                        if exists|fuel: nat| forwards_within(states@, state.0, value, fuel) {
                            let fuel = choose|fuel: nat| forwards_within(states@, state.0, value, fuel);
                            assert(forwards_within(states@, next, renamed, (fuel - 1) as nat));
                        }
                        if exists|fuel: nat| forwards_within(states@, next, renamed, fuel) {
                            let fuel = choose|fuel: nat| forwards_within(states@, next, renamed, fuel);
                            assert(forwards_within(states@, state.0, value, fuel + 1));
                        }
                    }
                    assert forall|i: int|
                        #![trigger visited@[i]]
                        0 <= i < visited@.len() implies forward_step(
                            states@,
                            visited@[i].0,
                            visited@[i].1,
                        ) == if i + 1 < visited@.len() {
                            Step::Continue(visited@[i + 1].0, visited@[i + 1].1)
                        } else {
                            Step::Continue(next, renamed)
                        } by {
                        if i + 1 < visited@.len() {
                            assert(visited@[i] == before[i]);
                            if i + 1 < before.len() {
                                assert(visited@[i + 1] == before[i + 1]);
                            }
                        }
                    }
                }
                state = StateId(next);
                value = renamed;
            },
        }
    }
}


/// Token `i` of `states` is a call whose continuation returns the call's result unchanged.
pub open spec fn is_forwarded_call(states: Seq<State>, i: int) -> bool {
    states[i].terminator matches Terminator::Call { resume, .. } && forwards_input(states, resume.0)
}

/// The state `i` of `states` once calls from `start` on are normalized: a call whose continuation
/// returns its result unchanged becomes a tail call of the same callee and argument; every other
/// state stays as it is.
pub open spec fn normalized_state(states: Seq<State>, start: int, i: int) -> State {
    let state = states[i];
    match state.terminator {
        Terminator::Call { callee, argument, .. } => if start <= i && is_forwarded_call(states, i) {
            State {
                input: state.input,
                bindings: state.bindings,
                terminator: Terminator::TailCall { callee, argument },
                span: state.span,
            }
        } else {
            state
        },
        _ => state,
    }
}

/// The state with its call turned into a tail call of the same callee and argument.
fn into_tail_call(state: State) -> (result: State)
    requires
        state.terminator is Call,
    ensures
        match state.terminator {
            Terminator::Call { callee, argument, .. } => result == State {
                input: state.input,
                bindings: state.bindings,
                terminator: Terminator::TailCall { callee, argument },
                span: state.span,
            },
            _ => false,
        },
{
    let State { input, bindings, terminator, span } = state;
    match terminator {
        Terminator::Call { callee, argument, .. } => State {
            input,
            bindings,
            terminator: Terminator::TailCall { callee, argument },
            span,
        },
        other => State { input, bindings, terminator: other, span },
    }
}

/// The calls among the states from `start` on whose continuations return their results
/// unchanged, in increasing order.
fn forwarded_calls(states: &Vec<State>, start: usize) -> (forwarded: Vec<usize>)
    requires
        targets_in_range(states@),
    ensures
        forall|i: int, j: int| 0 <= i < j < forwarded@.len() ==> forwarded@[i] < forwarded@[j],
        forall|i: int|
            0 <= i < forwarded@.len() ==> start <= #[trigger] forwarded@[i] < states@.len()
                && is_forwarded_call(states@, forwarded@[i] as int),
        forall|i: int|
            start <= i < states@.len() && #[trigger] is_forwarded_call(states@, i)
                ==> forwarded@.contains(i as usize),
{
    let mut forwarded: Vec<usize> = Vec::new();
    let mut index = start;
    while index < states.len()
        invariant
            targets_in_range(states@),
            start <= index,
            index <= states@.len() || forwarded@.len() == 0,
            forall|i: int, j: int| 0 <= i < j < forwarded@.len() ==> forwarded@[i] < forwarded@[j],
            forall|i: int|
                0 <= i < forwarded@.len() ==> start <= #[trigger] forwarded@[i] < index
                    && is_forwarded_call(states@, forwarded@[i] as int),
            forall|i: int|
                start <= i < index && #[trigger] is_forwarded_call(states@, i)
                    ==> forwarded@.contains(i as usize),
        decreases states@.len() - index,
    {
        let ghost before = forwarded@;
        match &states[index].terminator {
            Terminator::Call { resume, .. } => {
                assert(successor_ids(states@[index as int].terminator)[0] == *resume);
                if returns_input(states, *resume) {
                    forwarded.push(index);
                    assert(forwarded@[forwarded@.len() - 1] == index);
                }
            },
            _ => {},
        }
        assert forall|i: int|
            start <= i < index + 1 && #[trigger] is_forwarded_call(states@, i) implies forwarded@.contains(
            i as usize,
        ) by {
            if i < index {
                let w = choose|w: int| 0 <= w < before.len() && before[w] == i as usize;
                assert(forwarded@[w] == before[w]);
            } else {
                assert(forwarded@[forwarded@.len() - 1] == index);
            }
        }
        index = index + 1;
    }
    forwarded
}

/// Turns each call from `start` on whose continuation returns the call's result unchanged into a
/// tail call, so that no frame is kept for a continuation that would only pass the result on.
pub fn normalize_calls(states: &mut Vec<State>, start: usize)
    requires
        targets_in_range(old(states)@),
    ensures
        final(states)@.len() == old(states)@.len(),
        forall|i: int|
            0 <= i < old(states)@.len() ==> #[trigger] final(states)@[i] == normalized_state(
                old(states)@,
                start as int,
                i,
            ),
{
    let ghost original = states@;
    let forwarded = forwarded_calls(states, start);
    let length = states.len();
    let ghost n = length as int;
    let mut k: usize = 0;
    proof {
        let frontier = if 0 < forwarded@.len() {
            forwarded@[0] as int
        } else {
            n
        };
        assert forall|i: int| 0 <= i < n implies #[trigger] states@[i] == if i < frontier {
            normalized_state(original, start as int, i)
        } else {
            original[i]
        } by {
            if i < frontier && start <= i && is_forwarded_call(original, i) {
                let w = choose|w: int| 0 <= w < forwarded@.len() && forwarded@[w] == i as usize;
                if w > 0 {
                    assert(forwarded@[0] < forwarded@[w]);
                }
            }
        }
    }
    while k < forwarded.len()
        invariant
            states@.len() == n,
            n == original.len(),
            n <= usize::MAX,
            k <= forwarded@.len(),
            forall|i: int, j: int| 0 <= i < j < forwarded@.len() ==> forwarded@[i] < forwarded@[j],
            forall|i: int|
                0 <= i < forwarded@.len() ==> start <= #[trigger] forwarded@[i] < n
                    && is_forwarded_call(original, forwarded@[i] as int),
            forall|i: int|
                start <= i < n && #[trigger] is_forwarded_call(original, i)
                    ==> forwarded@.contains(i as usize),
            forall|i: int|
                0 <= i < n ==> #[trigger] states@[i] == if i < (if k < forwarded@.len() {
                    forwarded@[k as int] as int
                } else {
                    n
                }) {
                    normalized_state(original, start as int, i)
                } else {
                    original[i]
                },
        decreases forwarded@.len() - k,
    {
        let index = forwarded[k];
        let ghost prior = states@;
        assert(prior[index as int] == original[index as int]);
        let state = states.remove(index);
        assert(state == original[index as int]);
        let replaced = into_tail_call(state);
        let ghost made = replaced;
        states.insert(index, replaced);
        assert(states@ =~= prior.update(index as int, made));
        assert(made == normalized_state(original, start as int, index as int));
        proof {
            let frontier = if k + 1 < forwarded@.len() {
                forwarded@[k + 1] as int
            } else {
                n
            };
            assert forall|i: int| 0 <= i < n implies #[trigger] states@[i] == if i < frontier {
                normalized_state(original, start as int, i)
            } else {
                original[i]
            } by {
                if i != index {
                    assert(states@[i] == prior[i]);
                }
                if i < index {
                    assert(prior[i] == normalized_state(original, start as int, i));
                    assert(i < frontier);
                } else if i == index {
                    assert(states@[i] == made);
                    assert(i < frontier);
                } else {
                    assert(prior[i] == original[i]);
                    if i < frontier {
                        assert(normalized_state(original, start as int, i) == original[i]) by {
                            if start <= i && is_forwarded_call(original, i) {
                                assert(forwarded@.contains(i as usize));
                                let w = choose|w: int|
                                    0 <= w < forwarded@.len() && forwarded@[w] == i as usize;
                                if w <= k {
                                    assert(forwarded@[w] <= forwarded@[k as int]);
                                } else {
                                    assert(forwarded@[k + 1] <= forwarded@[w]);
                                }
                            }
                        }
                    }
                }
                if i > index && i < frontier {
                    if start <= i && is_forwarded_call(original, i) {
                        let w = choose|w: int| 0 <= w < forwarded@.len() && forwarded@[w] == i as usize;
                        if w <= k {
                            assert(forwarded@[w] <= forwarded@[k as int]);
                        } else {
                            assert(forwarded@[k + 1] <= forwarded@[w]);
                        }
                    }
                }
            }
        }
        k = k + 1;
    }
    proof {
        assert forall|i: int| 0 <= i < n implies #[trigger] states@[i] == normalized_state(
            original,
            start as int,
            i,
        ) by {}
    }
}


/// Two state graphs that differ only where a call became a tail call follow values alike.
proof fn lemma_same_walks(old: Seq<State>, new: Seq<State>)
    requires
        targets_in_range(old),
        old.len() == new.len(),
        forall|i: int|
            0 <= i < old.len() ==> #[trigger] new[i] == old[i] || (old[i].terminator is Call
                && new[i].terminator is TailCall && new[i].input == old[i].input
                && new[i].bindings == old[i].bindings),
    ensures
        forall|s: usize, v: ValueId, fuel: nat|
            s < old.len() ==> #[trigger] forwards_within(new, s, v, fuel) == forwards_within(
                old,
                s,
                v,
                fuel,
            ),
        forall|s: usize, fuel: nat|
            s < old.len() ==> #[trigger] delivers_unit_within(new, s, fuel) == delivers_unit_within(
                old,
                s,
                fuel,
            ),
{
    assert forall|s: usize, v: ValueId| s < old.len() implies #[trigger] forward_step(new, s, v)
        == forward_step(old, s, v) by {
        lemma_same_inputs_at_targets(old, new, s as int);
    }
    assert forall|s: usize| s < old.len() implies #[trigger] unit_step(new, s) == unit_step(old, s) by {
        lemma_same_inputs_at_targets(old, new, s as int);
    }
    assert forall|s: usize, v: ValueId, fuel: nat|
        s < old.len() implies #[trigger] forwards_within(new, s, v, fuel) == forwards_within(
        old,
        s,
        v,
        fuel,
    ) by {
        lemma_same_forwarding(old, new, s, v, fuel);
    }
    assert forall|s: usize, fuel: nat|
        s < old.len() implies #[trigger] delivers_unit_within(new, s, fuel) == delivers_unit_within(
        old,
        s,
        fuel,
    ) by {
        lemma_same_unit_delivery(old, new, s, fuel);
    }
}

proof fn lemma_same_inputs_at_targets(old: Seq<State>, new: Seq<State>, s: int)
    requires
        targets_in_range(old),
        old.len() == new.len(),
        0 <= s < old.len(),
        forall|i: int|
            0 <= i < old.len() ==> #[trigger] new[i] == old[i] || (old[i].terminator is Call
                && new[i].terminator is TailCall && new[i].input == old[i].input
                && new[i].bindings == old[i].bindings),
    ensures
        new[s].bindings == old[s].bindings,
        new[s] == old[s] || (old[s].terminator is Call && new[s].terminator is TailCall),
        match old[s].terminator {
            Terminator::Goto(t) => new[t.0 as int].input == old[t.0 as int].input,
            Terminator::Jump { target, .. } => new[target.0 as int].input == old[
                target.0 as int
            ].input,
            _ => true,
        },
{
    assert(new[s] == old[s] || old[s].terminator is Call);
    match old[s].terminator {
        Terminator::Goto(t) => {
            assert(successor_ids(old[s].terminator)[0] == t);
            assert(new[t.0 as int] == old[t.0 as int] || old[t.0 as int].terminator is Call);
        },
        Terminator::Jump { target, .. } => {
            assert(successor_ids(old[s].terminator)[0] == target);
            assert(new[target.0 as int] == old[target.0 as int] || old[target.0 as int].terminator is Call);
        },
        _ => {},
    }
}

proof fn lemma_same_forwarding(old: Seq<State>, new: Seq<State>, s: usize, v: ValueId, fuel: nat)
    requires
        forall|s: usize, v: ValueId| s < old.len() ==> #[trigger] forward_step(new, s, v) == forward_step(old, s, v),
        s < old.len(),
        targets_in_range(old),
    ensures
        forwards_within(new, s, v, fuel) == forwards_within(old, s, v, fuel),
    decreases fuel,
{
    if fuel > 0 {
        match forward_step(old, s, v) {
            Step::Continue(next, renamed) => {
                lemma_step_in_range(old, s, v);
                lemma_same_forwarding(old, new, next, renamed, (fuel - 1) as nat);
            },
            _ => {},
        }
    }
}

proof fn lemma_same_unit_delivery(old: Seq<State>, new: Seq<State>, s: usize, fuel: nat)
    requires
        forall|s: usize| s < old.len() ==> #[trigger] unit_step(new, s) == unit_step(old, s),
        s < old.len(),
        targets_in_range(old),
    ensures
        delivers_unit_within(new, s, fuel) == delivers_unit_within(old, s, fuel),
    decreases fuel,
{
    if fuel > 0 {
        match unit_step(old, s) {
            UnitStep::Continue(next) => {
                lemma_unit_step_in_range(old, s);
                lemma_same_unit_delivery(old, new, next, (fuel - 1) as nat);
            },
            _ => {},
        }
    }
}

proof fn lemma_step_in_range(states: Seq<State>, s: usize, v: ValueId)
    requires
        s < states.len(),
        targets_in_range(states),
    ensures
        forward_step(states, s, v) matches Step::Continue(next, _) ==> next < states.len(),
{
    match states[s as int].terminator {
        Terminator::Goto(target) => {
            assert(successor_ids(states[s as int].terminator)[0] == target);
        },
        Terminator::Jump { target, .. } => {
            assert(successor_ids(states[s as int].terminator)[0] == target);
        },
        _ => {},
    }
}

proof fn lemma_unit_step_in_range(states: Seq<State>, s: usize)
    requires
        s < states.len(),
        targets_in_range(states),
    ensures
        unit_step(states, s) matches UnitStep::Continue(next) ==> next < states.len(),
{
    match states[s as int].terminator {
        Terminator::Goto(target) => {
            assert(successor_ids(states[s as int].terminator)[0] == target);
        },
        Terminator::Jump { target, .. } => {
            assert(successor_ids(states[s as int].terminator)[0] == target);
        },
        _ => {},
    }
}

/// Normalizing calls twice is normalizing them once: the states that normalization leaves are
/// already normalized, and every target stays in range.
pub proof fn lemma_normalize_calls_idempotent(states: Seq<State>, start: int, normalized: Seq<State>)
    requires
        targets_in_range(states),
        normalized.len() == states.len(),
        forall|i: int|
            0 <= i < states.len() ==> #[trigger] normalized[i] == normalized_state(states, start, i),
    ensures
        targets_in_range(normalized),
        forall|i: int|
            0 <= i < normalized.len() ==> #[trigger] normalized_state(normalized, start, i)
                == normalized[i],
{
    assert forall|i: int, k: int|
        #![trigger successor_ids(normalized[i].terminator)[k]]
        0 <= i < normalized.len() && 0 <= k < successor_ids(normalized[i].terminator).len()
            implies successor_ids(normalized[i].terminator)[k].0 < normalized.len() by {
        assert(normalized[i] == normalized_state(states, start, i));
        assert(successor_ids(states[i].terminator)[k] == successor_ids(states[i].terminator)[k]);
    }
    assert forall|i: int|
        0 <= i < states.len() implies #[trigger] normalized[i] == states[i] || (
        states[i].terminator is Call && normalized[i].terminator is TailCall && normalized[i].input
            == states[i].input && normalized[i].bindings == states[i].bindings) by {
        assert(normalized[i] == normalized_state(states, start, i));
    }
    lemma_same_walks(states, normalized);
    assert forall|i: int|
        0 <= i < normalized.len() implies #[trigger] normalized_state(normalized, start, i)
            == normalized[i] by {
        assert(normalized[i] == normalized_state(states, start, i));
        match normalized[i].terminator {
            Terminator::Call { resume, .. } => {
                assert(states[i] == normalized[i]);
                assert(successor_ids(states[i].terminator)[0] == resume);
                let r = resume.0;
                assert(r < states.len());
                if is_unit_input(states[r as int].input) {
                    assert(normalized[r as int].input == states[r as int].input);
                    assert((exists|fuel: nat| delivers_unit_within(normalized, r, fuel)) == (exists|
                        fuel: nat,
                    | delivers_unit_within(states, r, fuel))) by {
                        if exists|fuel: nat| delivers_unit_within(normalized, r, fuel) {
                            let fuel = choose|fuel: nat| delivers_unit_within(normalized, r, fuel);
                            assert(delivers_unit_within(states, r, fuel));
                        }
                        if exists|fuel: nat| delivers_unit_within(states, r, fuel) {
                            let fuel = choose|fuel: nat| delivers_unit_within(states, r, fuel);
                            assert(delivers_unit_within(normalized, r, fuel));
                        }
                    }
                } else {
                    assert(normalized[r as int].input == states[r as int].input);
                    match input_value(states[r as int].input) {
                        Some(v) => {
                            assert((exists|fuel: nat| forwards_within(normalized, r, v, fuel)) == (
                            exists|fuel: nat| forwards_within(states, r, v, fuel))) by {
                                if exists|fuel: nat| forwards_within(normalized, r, v, fuel) {
                                    let fuel = choose|fuel: nat| forwards_within(normalized, r, v, fuel);
                                    assert(forwards_within(states, r, v, fuel));
                                }
                                if exists|fuel: nat| forwards_within(states, r, v, fuel) {
                                    let fuel = choose|fuel: nat| forwards_within(states, r, v, fuel);
                                    assert(forwards_within(normalized, r, v, fuel));
                                }
                            }
                        },
                        None => {},
                    }
                }
                assert(forwards_input(normalized, r) == forwards_input(states, r));
            },
            _ => {},
        }
    }
}

} // verus!
