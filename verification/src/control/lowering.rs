use vstd::prelude::*;

use crate::closure::ast::{self as closure, Atom, AtomKind, Pattern, Reference};
use crate::closure::copy::{duplicate_atom, duplicate_atoms, duplicate_pattern, same_atom, same_atoms, same_pattern};
use crate::source::Span;

use super::ast::{Binding, CaseArm, Function, Operation, Program, State, StateId, Terminator, TopLevelBinding, successor_ids, targets_in_range};
use super::liveness::{emitted_in_order, local_values, records_liveness, resolve_liveness};
use crate::check::ast::duplicate_type;
use crate::closure::copy::{duplicate_top_level_pattern, same_top_level_pattern};
use crate::core_ir::interface::{duplicate_interface, same_interface};

verus! {

/// Where the value of a block goes: it is returned, or passed to a join state.
#[derive(Clone, Copy)]
pub enum Destination {
    Return,
    Jump(StateId),
}

/// An operation that stays a binding of a state: anything but the control operations (calls,
/// case analysis, primitive branches) and the join and packed-builder steps that this lowering
/// does not take.
pub open spec fn is_plain_operation(operation: closure::Operation) -> bool {
    !(operation is Call || operation is Case || operation is PrimitiveBranch || operation is Goto
        || operation is PackedBuilder)
}

/// Every operation of the block, and of the blocks inside it, is a control operation or a plain one.
pub open spec fn supported_block(block: closure::Block) -> bool
    decreases block, 0nat,
{
    supported_bindings(block.bindings@, 0)
}

pub open spec fn supported_bindings(bindings: Seq<closure::Binding>, from: nat) -> bool
    decreases bindings, bindings.len() - from,
{
    if from >= bindings.len() {
        true
    } else {
        supported_operation(bindings[from as int].operation) && supported_bindings(
            bindings,
            from + 1,
        )
    }
}

pub open spec fn supported_operation(operation: closure::Operation) -> bool
    decreases operation, 0nat,
{
    match operation {
        closure::Operation::Call { .. } => true,
        closure::Operation::Case { arms, .. } => supported_arms(arms@, 0),
        closure::Operation::PrimitiveBranch { otherwise, then, .. } => supported_block(*otherwise)
            && supported_block(*then),
        _ => is_plain_operation(operation),
    }
}

pub open spec fn supported_arms(arms: Seq<closure::CaseArm>, from: nat) -> bool
    decreases arms, arms.len() - from,
{
    if from >= arms.len() {
        true
    } else {
        supported_block(arms[from as int].value) && supported_arms(arms, from + 1)
    }
}

proof fn lemma_supported_bindings(bindings: Seq<closure::Binding>, from: nat, k: int)
    requires
        supported_bindings(bindings, from),
        from <= k < bindings.len(),
    ensures
        supported_operation(bindings[k].operation),
    decreases k - from,
{
    if k > from {
        lemma_supported_bindings(bindings, from + 1, k);
    }
}

proof fn lemma_supported_arms(arms: Seq<closure::CaseArm>, from: nat, k: int)
    requires
        supported_arms(arms, from),
        from <= k < arms.len(),
    ensures
        supported_block(arms[k].value),
    decreases k - from,
{
    if k > from {
        lemma_supported_arms(arms, from + 1, k);
    }
}

/// `lowered` is the plain `operation` as a binding operation of a state.
pub open spec fn lowers_operation(operation: closure::Operation, lowered: Operation) -> bool {
    match operation {
        closure::Operation::Atom(value) => lowered matches Operation::Atom(v) && same_atom(v, value),
        closure::Operation::MakeClosure { function, captures } => lowered matches Operation::MakeClosure {
            function: f,
            captures: c,
        } && f == function && same_atoms(c@, captures@),
        closure::Operation::SymbolLength { value } => lowered matches Operation::SymbolLength {
            value: v,
        } && same_atom(v, value),
        closure::Operation::SymbolAt { argument } => lowered matches Operation::SymbolAt {
            argument: a,
        } && same_atom(a, argument),
        closure::Operation::Memory { primitive, operands } => lowered matches Operation::Memory {
            primitive: p,
            operands: o,
        } && p == primitive && same_atoms(o@, operands@),
        closure::Operation::ExternalCall { id, argument } => lowered matches Operation::ExternalCall {
            id: i,
            argument: a,
        } && i == id && same_atom(a, argument),
        closure::Operation::NumericConversion { operand } => lowered matches Operation::NumericConversion {
            operand: o,
        } && same_atom(o, operand),
        closure::Operation::Product(elements) => lowered matches Operation::Product(e) && same_atoms(
            e@,
            elements@,
        ),
        closure::Operation::SumInjection { index, value } => lowered matches Operation::SumInjection {
            index: i,
            value: v,
        } && i == index && same_atom(v, value),
        closure::Operation::PrimitiveUnary { operator, operand } => lowered matches Operation::PrimitiveUnary {
            operator: p,
            operand: o,
        } && p == operator && same_atom(o, operand),
        closure::Operation::PrimitiveBinary { operator, left, right } => lowered matches Operation::PrimitiveBinary {
            operator: p,
            left: l,
            right: r,
        } && p == operator && same_atom(l, left) && same_atom(r, right),
        _ => false,
    }
}

/// The plain operation as a binding operation of a state.
pub fn lower_operation(operation: &closure::Operation) -> (lowered: Operation)
    requires
        is_plain_operation(*operation),
    ensures
        lowers_operation(*operation, lowered),
{
    match operation {
        closure::Operation::Atom(value) => Operation::Atom(duplicate_atom(value)),
        closure::Operation::MakeClosure { function, captures } => Operation::MakeClosure {
            function: *function,
            captures: duplicate_atoms(captures),
        },
        closure::Operation::SymbolLength { value } => Operation::SymbolLength {
            value: duplicate_atom(value),
        },
        closure::Operation::SymbolAt { argument } => Operation::SymbolAt {
            argument: duplicate_atom(argument),
        },
        closure::Operation::Memory { primitive, operands } => Operation::Memory {
            primitive: *primitive,
            operands: duplicate_atoms(operands),
        },
        closure::Operation::ExternalCall { id, argument } => Operation::ExternalCall {
            id: *id,
            argument: duplicate_atom(argument),
        },
        closure::Operation::NumericConversion { operand } => Operation::NumericConversion {
            operand: duplicate_atom(operand),
        },
        closure::Operation::Product(elements) => Operation::Product(duplicate_atoms(elements)),
        closure::Operation::SumInjection { index, value } => Operation::SumInjection {
            index: *index,
            value: duplicate_atom(value),
        },
        closure::Operation::PrimitiveUnary { operator, operand } => Operation::PrimitiveUnary {
            operator: *operator,
            operand: duplicate_atom(operand),
        },
        closure::Operation::PrimitiveBinary { operator, left, right } => Operation::PrimitiveBinary {
            operator: *operator,
            left: duplicate_atom(left),
            right: duplicate_atom(right),
        },
        _ => Operation::Product(Vec::new()),
    }
}

/// The block's result is the value that `pattern` binds.
pub open spec fn spec_returns_binding(result: Atom, pattern: Pattern) -> bool {
    result.kind matches AtomKind::Reference(Reference::Binding(id)) && pattern matches Pattern::Binding {
        id: bound,
        ..
    } && id == bound
}

/// Whether the block's result is the value that `pattern` binds.
pub fn returns_binding(result: &Atom, pattern: &Pattern) -> (returned: bool)
    ensures
        returned == spec_returns_binding(*result, *pattern),
{
    match (&result.kind, pattern) {
        (AtomKind::Reference(Reference::Binding(result)), Pattern::Binding { id, .. }) => *result
            == *id,
        _ => false,
    }
}

/// A control operation ends a state: a call, a case analysis or a primitive branch.
pub open spec fn is_control(operation: closure::Operation) -> bool {
    operation is Call || operation is Case || operation is PrimitiveBranch
}

/// The block's last binding is a control operation whose value the block returns, and it becomes
/// the terminator of the block's last state: a call does so only when the block's value is
/// returned, and then becomes a tail call.
pub open spec fn ends_in_control(block: closure::Block, destination: Destination) -> bool {
    let n = block.bindings@.len();
    &&& n > 0
    &&& spec_returns_binding(block.result, block.bindings@[n - 1].pattern)
    &&& match block.bindings@[n - 1].operation {
        closure::Operation::Call { .. } => destination is Return,
        closure::Operation::Case { .. } => true,
        closure::Operation::PrimitiveBranch { .. } => true,
        _ => false,
    }
}

/// How many bindings of the block come before its ending.
pub open spec fn chain_length(block: closure::Block, destination: Destination) -> int {
    if ends_in_control(block, destination) {
        block.bindings@.len() - 1
    } else {
        block.bindings@.len() as int
    }
}

/// The first control operation among `bindings[k..n]`, or `n` where there is none.
pub open spec fn next_control(bindings: Seq<closure::Binding>, k: int, n: int) -> int
    decreases n - k,
{
    if k >= n {
        n
    } else if is_control(bindings[k].operation) {
        k
    } else {
        next_control(bindings, k + 1, n)
    }
}

/// `lowered` is the plain `binding` as a binding of a state.
pub open spec fn lowers_plain_binding(binding: closure::Binding, lowered: Binding) -> bool {
    &&& same_pattern(lowered.pattern, binding.pattern)
    &&& lowers_operation(binding.operation, lowered.operation)
    &&& lowered.span == binding.span
}

/// `terminator` hands `result` to `destination`: returns it, or jumps with it to the join state.
pub open spec fn hands_over(terminator: Terminator, result: Atom, destination: Destination) -> bool {
    match destination {
        Destination::Return => terminator matches Terminator::Return(value) && same_atom(value, result),
        Destination::Jump(target) => terminator matches Terminator::Jump { target: t, value } && t
            == target && same_atom(value, result),
    }
}

/// `state` resumes after a control operation: it takes the operation's value by `pattern` and
/// holds no bindings.
pub open spec fn takes_value(state: State, pattern: Pattern) -> bool {
    &&& state.input matches Some(input)
    &&& same_pattern(input, pattern)
    &&& state.bindings@.len() == 0
}

/// `state`, with the states of `states` below `limit` that it passes control to, carries out the
/// bindings of `block` from `k` on and then the block's ending, handing the block's value to
/// `destination`. Plain bindings up to the next control operation stay bindings of `state`. A call
/// ends `state` with a call that resumes in a state taking the call's value, which goes on to the
/// rest; a case analysis or a branch ends `state` by passing control to states that carry out its
/// arms and jump to a join state taking its value, which goes on to the rest. A final call whose
/// value the returned block returns is a tail call; a final case analysis or branch whose value
/// the block returns hands its arms' values to the block's destination.
pub open spec fn carries_out(
    states: Seq<State>,
    state: State,
    block: closure::Block,
    k: int,
    destination: Destination,
    limit: int,
) -> bool
    decreases block, block.bindings@.len() - k,
{
    let bindings = block.bindings@;
    let n = chain_length(block, destination);
    let j = next_control(bindings, k, n);
    &&& 0 <= k <= n
    &&& limit <= states.len()
    &&& state.bindings@.len() == j - k
    &&& forall|i: int|
        0 <= i < j - k ==> lowers_plain_binding(bindings[k + i], #[trigger] state.bindings@[i])
    &&& if k <= j < n {
        match bindings[j].operation {
            closure::Operation::Call { callee, argument } => {
                &&& state.terminator matches Terminator::Call { callee: c, argument: a, resume, .. }
                &&& same_atom(c, callee)
                &&& same_atom(a, argument)
                &&& 0 <= resume.0 < limit
                &&& takes_value(states[resume.0 as int], bindings[j].pattern)
                &&& states[resume.0 as int].terminator matches Terminator::Goto(next)
                &&& 0 <= next.0 < resume.0
                &&& carries_out(states, states[next.0 as int], block, j + 1, destination, next.0 as int)
            },
            closure::Operation::Case { scrutinee, arms } => {
                &&& state.terminator matches Terminator::Case { scrutinee: s, arms: targets }
                &&& same_atom(s, scrutinee)
                &&& targets@.len() == arms@.len()
                &&& exists|join: StateId|
                    {
                        &&& 0 <= join.0 < limit
                        &&& takes_value(#[trigger] states[join.0 as int], bindings[j].pattern)
                        &&& states[join.0 as int].terminator matches Terminator::Goto(next)
                        &&& 0 <= next.0 < join.0
                        &&& carries_out(states, states[next.0 as int], block, j + 1, destination, next.0 as int)
                        &&& lowers_arms(states, targets@, arms@, 0, Destination::Jump(join), limit)
                    }
            },
            closure::Operation::PrimitiveBranch { operator, left, right, otherwise, then } => {
                &&& state.terminator matches Terminator::PrimitiveBranch {
                    operator: o,
                    left: l,
                    right: r,
                    otherwise: other,
                    then: taken,
                }
                &&& o == operator
                &&& same_atom(l, left)
                &&& same_atom(r, right)
                &&& exists|join: StateId|
                    {
                        &&& 0 <= join.0 < limit
                        &&& takes_value(#[trigger] states[join.0 as int], bindings[j].pattern)
                        &&& states[join.0 as int].terminator matches Terminator::Goto(next)
                        &&& 0 <= next.0 < join.0
                        &&& carries_out(states, states[next.0 as int], block, j + 1, destination, next.0 as int)
                        &&& 0 <= other.0 < limit
                        &&& carries_out(states, states[other.0 as int], *otherwise, 0, Destination::Jump(join), other.0 as int)
                        &&& 0 <= taken.0 < limit
                        &&& carries_out(states, states[taken.0 as int], *then, 0, Destination::Jump(join), taken.0 as int)
                    }
            },
            _ => false,
        }
    } else if ends_in_control(block, destination) {
        match bindings[n].operation {
            closure::Operation::Call { callee, argument } => state.terminator matches Terminator::TailCall {
                callee: c,
                argument: a,
            } && same_atom(c, callee) && same_atom(a, argument),
            closure::Operation::Case { scrutinee, arms } => state.terminator matches Terminator::Case {
                scrutinee: s,
                arms: targets,
            } && same_atom(s, scrutinee) && targets@.len() == arms@.len() && lowers_arms(
                states,
                targets@,
                arms@,
                0,
                destination,
                limit,
            ),
            closure::Operation::PrimitiveBranch { operator, left, right, otherwise, then } => {
                &&& state.terminator matches Terminator::PrimitiveBranch {
                    operator: o,
                    left: l,
                    right: r,
                    otherwise: other,
                    then: taken,
                }
                &&& o == operator
                &&& same_atom(l, left)
                &&& same_atom(r, right)
                &&& 0 <= other.0 < limit
                &&& carries_out(states, states[other.0 as int], *otherwise, 0, destination, other.0 as int)
                &&& 0 <= taken.0 < limit
                &&& carries_out(states, states[taken.0 as int], *then, 0, destination, taken.0 as int)
            },
            _ => false,
        }
    } else {
        hands_over(state.terminator, block.result, destination)
    }
}

/// Each arm of `targets` enters, below `limit`, a state that takes the arm's pattern and carries
/// out the arm's block with `destination`.
pub open spec fn lowers_arms(
    states: Seq<State>,
    targets: Seq<CaseArm>,
    arms: Seq<closure::CaseArm>,
    from: int,
    destination: Destination,
    limit: int,
) -> bool
    decreases arms, arms.len() - from,
{
    if from < 0 || from >= arms.len() {
        true
    } else {
        let target = targets[from].target.0 as int;
        &&& targets[from].index == arms[from].index
        &&& targets[from].span == arms[from].span
        &&& 0 <= target < limit
        &&& states[target].input matches Some(input)
        &&& same_pattern(input, arms[from].pattern)
        &&& carries_out(states, states[target], arms[from].value, 0, destination, target)
        &&& lowers_arms(states, targets, arms, from + 1, destination, limit)
    }
}

/// Two states with the same bindings and terminator, but for the liveness a call records.
pub open spec fn same_body(a: State, b: State) -> bool {
    &&& a.bindings == b.bindings
    &&& match b.terminator {
        Terminator::Call { callee, argument, resume, .. } => a.terminator matches Terminator::Call {
            callee: c,
            argument: x,
            resume: r,
            ..
        } && c == callee && x == argument && r == resume,
        _ => a.terminator == b.terminator,
    }
}

/// Two states alike in all but the liveness a call records.
pub open spec fn same_shape(a: State, b: State) -> bool {
    a.input == b.input && same_body(a, b)
}

/// What a state carries out depends only on the shapes of the states below `limit`.
proof fn lemma_carries_out_frame(
    s1: Seq<State>,
    s2: Seq<State>,
    a: State,
    b: State,
    block: closure::Block,
    k: int,
    destination: Destination,
    limit: int,
)
    requires
        carries_out(s1, a, block, k, destination, limit),
        same_body(b, a),
        limit <= s2.len(),
        forall|i: int| 0 <= i < limit ==> same_shape(#[trigger] s2[i], s1[i]),
    ensures
        carries_out(s2, b, block, k, destination, limit),
    decreases block, block.bindings@.len() - k,
{
    let bindings = block.bindings@;
    let n = chain_length(block, destination);
    let j = next_control(bindings, k, n);
    if k <= j < n {
        match bindings[j].operation {
            closure::Operation::Call { callee, argument } => {
                match a.terminator {
                    Terminator::Call { resume, .. } => {
                        let r = resume.0 as int;
                        assert(same_shape(s2[r], s1[r]));
                        match s1[r].terminator {
                            Terminator::Goto(next) => {
                                let x = next.0 as int;
                                assert(same_shape(s2[x], s1[x]));
                                lemma_carries_out_frame(s1, s2, s1[x], s2[x], block, j + 1, destination, x);
                            },
                            _ => {},
                        }
                    },
                    _ => {},
                }
            },
            closure::Operation::Case { scrutinee, arms } => {
                match a.terminator {
                    Terminator::Case { arms: targets, .. } => {
                        let join = choose|join: StateId|
                            {
                                &&& 0 <= join.0 < limit
                                &&& takes_value(#[trigger] s1[join.0 as int], bindings[j].pattern)
                                &&& s1[join.0 as int].terminator matches Terminator::Goto(next)
                                &&& 0 <= next.0 < join.0
                                &&& carries_out(s1, s1[next.0 as int], block, j + 1, destination, next.0 as int)
                                &&& lowers_arms(s1, targets@, arms@, 0, Destination::Jump(join), limit)
                            };
                        let w = join.0 as int;
                        assert(same_shape(s2[w], s1[w]));
                        match s1[w].terminator {
                            Terminator::Goto(next) => {
                                let x = next.0 as int;
                                assert(same_shape(s2[x], s1[x]));
                                lemma_carries_out_frame(s1, s2, s1[x], s2[x], block, j + 1, destination, x);
                                lemma_lowers_arms_frame(s1, s2, targets@, arms@, 0, Destination::Jump(join), limit);
                                assert(takes_value(s2[join.0 as int], bindings[j].pattern));
                            },
                            _ => {},
                        }
                    },
                    _ => {},
                }
            },
            closure::Operation::PrimitiveBranch { operator, left, right, otherwise, then } => {
                match a.terminator {
                    Terminator::PrimitiveBranch { otherwise: other, then: taken, .. } => {
                        let join = choose|join: StateId|
                            {
                                &&& 0 <= join.0 < limit
                                &&& takes_value(#[trigger] s1[join.0 as int], bindings[j].pattern)
                                &&& s1[join.0 as int].terminator matches Terminator::Goto(next)
                                &&& 0 <= next.0 < join.0
                                &&& carries_out(s1, s1[next.0 as int], block, j + 1, destination, next.0 as int)
                                &&& 0 <= other.0 < limit
                                &&& carries_out(s1, s1[other.0 as int], *otherwise, 0, Destination::Jump(join), other.0 as int)
                                &&& 0 <= taken.0 < limit
                                &&& carries_out(s1, s1[taken.0 as int], *then, 0, Destination::Jump(join), taken.0 as int)
                            };
                        let w = join.0 as int;
                        assert(same_shape(s2[w], s1[w]));
                        let o = other.0 as int;
                        let t = taken.0 as int;
                        assert(same_shape(s2[o], s1[o]));
                        assert(same_shape(s2[t], s1[t]));
                        lemma_carries_out_frame(s1, s2, s1[o], s2[o], *otherwise, 0, Destination::Jump(join), o);
                        lemma_carries_out_frame(s1, s2, s1[t], s2[t], *then, 0, Destination::Jump(join), t);
                        match s1[w].terminator {
                            Terminator::Goto(next) => {
                                let x = next.0 as int;
                                assert(same_shape(s2[x], s1[x]));
                                lemma_carries_out_frame(s1, s2, s1[x], s2[x], block, j + 1, destination, x);
                                assert(takes_value(s2[join.0 as int], bindings[j].pattern));
                            },
                            _ => {},
                        }
                    },
                    _ => {},
                }
            },
            _ => {},
        }
    } else if ends_in_control(block, destination) {
        match bindings[n].operation {
            closure::Operation::Case { scrutinee, arms } => {
                match a.terminator {
                    Terminator::Case { arms: targets, .. } => {
                        lemma_lowers_arms_frame(s1, s2, targets@, arms@, 0, destination, limit);
                    },
                    _ => {},
                }
            },
            closure::Operation::PrimitiveBranch { otherwise, then, .. } => {
                match a.terminator {
                    Terminator::PrimitiveBranch { otherwise: other, then: taken, .. } => {
                        let o = other.0 as int;
                        let t = taken.0 as int;
                        assert(same_shape(s2[o], s1[o]));
                        assert(same_shape(s2[t], s1[t]));
                        lemma_carries_out_frame(s1, s2, s1[o], s2[o], *otherwise, 0, destination, o);
                        lemma_carries_out_frame(s1, s2, s1[t], s2[t], *then, 0, destination, t);
                    },
                    _ => {},
                }
            },
            _ => {},
        }
    }
}

proof fn lemma_lowers_arms_frame(
    s1: Seq<State>,
    s2: Seq<State>,
    targets: Seq<CaseArm>,
    arms: Seq<closure::CaseArm>,
    from: int,
    destination: Destination,
    limit: int,
)
    requires
        lowers_arms(s1, targets, arms, from, destination, limit),
        limit <= s2.len(),
        forall|i: int| 0 <= i < limit ==> same_shape(#[trigger] s2[i], s1[i]),
    ensures
        lowers_arms(s2, targets, arms, from, destination, limit),
    decreases arms, arms.len() - from,
{
    if 0 <= from < arms.len() {
        let t = targets[from].target.0 as int;
        assert(same_shape(s2[t], s1[t]));
        lemma_carries_out_frame(s1, s2, s1[t], s2[t], arms[from].value, 0, destination, t);
        lemma_lowers_arms_frame(s1, s2, targets, arms, from + 1, destination, limit);
    }
}

/// The states of one body under construction.
pub struct Lowerer {
    pub states: Vec<State>,
}

/// A destination that the states from `base` on may pass control to.
pub open spec fn destination_in(destination: Destination, base: int, length: int) -> bool {
    destination matches Destination::Jump(target) ==> base <= target.0 < length
}

/// What a lowering step keeps and makes: the states before it stay as they were, it adds at least
/// one state, and the states from `base` on still pass control only to earlier states.
pub open spec fn extends(before: Seq<State>, after: Seq<State>, base: int) -> bool {
    &&& before.len() < after.len()
    &&& forall|i: int| 0 <= i < before.len() ==> #[trigger] after[i] == before[i]
    &&& emitted_in_order(after, base)
}

/// `target` enters, among `states`, a state that takes `arm`'s pattern and carries out its block
/// with `destination`.
pub open spec fn arm_lowered(states: Seq<State>, target: CaseArm, arm: closure::CaseArm, destination: Destination) -> bool {
    let t = target.target.0 as int;
    &&& target.index == arm.index
    &&& target.span == arm.span
    &&& 0 <= t < states.len()
    &&& states[t].input matches Some(input)
    &&& same_pattern(input, arm.pattern)
    &&& carries_out(states, states[t], arm.value, 0, destination, t)
}

proof fn lemma_lowers_arms(
    states: Seq<State>,
    targets: Seq<CaseArm>,
    arms: Seq<closure::CaseArm>,
    from: int,
    destination: Destination,
    limit: int,
)
    requires
        0 <= from,
        targets.len() == arms.len(),
        limit <= states.len(),
        forall|i: int|
            from <= i < arms.len() ==> arm_lowered(states, #[trigger] targets[i], arms[i], destination)
                && targets[i].target.0 < limit,
    ensures
        lowers_arms(states, targets, arms, from, destination, limit),
    decreases arms.len() - from,
{
    if from < arms.len() {
        assert(arm_lowered(states, targets[from], arms[from], destination));
        lemma_lowers_arms(states, targets, arms, from + 1, destination, limit);
    }
}

proof fn lemma_same_shape_reflexive(a: State)
    ensures
        same_shape(a, a),
        same_body(a, a),
{
}

/// What a state carries out stays so when states are added after the ones it reads.
proof fn lemma_carries_out_extended(
    s1: Seq<State>,
    s2: Seq<State>,
    a: State,
    b: State,
    block: closure::Block,
    k: int,
    destination: Destination,
    limit: int,
)
    requires
        carries_out(s1, a, block, k, destination, limit),
        same_body(b, a),
        limit <= s1.len() <= s2.len(),
        forall|i: int| 0 <= i < s1.len() ==> #[trigger] s2[i] == s1[i],
    ensures
        carries_out(s2, b, block, k, destination, limit),
{
    assert forall|i: int| 0 <= i < limit implies same_shape(#[trigger] s2[i], s1[i]) by {
        lemma_same_shape_reflexive(s1[i]);
    }
    lemma_carries_out_frame(s1, s2, a, b, block, k, destination, limit);
}

/// Adding a state whose successors come before it, and not before `base`, keeps the order.
proof fn lemma_push_keeps_order(before: Seq<State>, after: Seq<State>, base: int)
    requires
        0 <= base,
        emitted_in_order(before, base),
        after.len() == before.len() + 1,
        forall|i: int| 0 <= i < before.len() ==> #[trigger] after[i] == before[i],
        forall|k: int|
            0 <= k < successor_ids(after[before.len() as int].terminator).len() ==> base
                <= #[trigger] successor_ids(after[before.len() as int].terminator)[k].0
                < before.len(),
    ensures
        emitted_in_order(after, base),
{
    assert forall|i: int, k: int|
        #![trigger successor_ids(after[i].terminator)[k]]
        base <= i < after.len() && 0 <= k < successor_ids(after[i].terminator).len() implies base
            <= successor_ids(after[i].terminator)[k].0 < i by {
        if i < before.len() {
            assert(after[i] == before[i]);
            assert(successor_ids(before[i].terminator)[k] == successor_ids(after[i].terminator)[k]);
        }
    }
}

impl Lowerer {
    /// Adds a state and returns its identity.
    fn push_state(
        &mut self,
        input: Option<Pattern>,
        bindings: Vec<Binding>,
        terminator: Terminator,
        span: Span,
    ) -> (id: StateId)
        ensures
            final(self).states@ == old(self).states@.push(State { input, bindings, terminator, span }),
            id.0 == old(self).states@.len(),
    {
        let id = StateId(self.states.len());
        self.states.push(State { input, bindings, terminator, span });
        id
    }

    /// The states of a case analysis: each arm's block, entered by a state that takes the arm's
    /// pattern; the arms that enter them.
    fn lower_case(
        &mut self,
        operation: &closure::Operation,
        destination: Destination,
        Ghost(base): Ghost<int>,
    ) -> (lowered: Vec<CaseArm>)
        requires
            operation is Case,
            supported_operation(*operation),
            0 <= base <= old(self).states@.len(),
            emitted_in_order(old(self).states@, base),
            destination_in(destination, base, old(self).states@.len() as int),
        ensures
            old(self).states@.len() <= final(self).states@.len(),
            forall|i: int|
                0 <= i < old(self).states@.len() ==> #[trigger] final(self).states@[i] == old(self).states@[i],
            emitted_in_order(final(self).states@, base),
            *operation matches closure::Operation::Case { arms, .. } && lowered@.len() == arms@.len()
                && lowers_arms(final(self).states@, lowered@, arms@, 0, destination, final(self).states@.len() as int),
            forall|j: int|
                0 <= j < lowered@.len() ==> old(self).states@.len() <= (#[trigger] lowered@[j]).target.0
                    < final(self).states@.len(),
        decreases operation, 0nat,
    {
        let ghost start = self.states@;
        match operation {
            closure::Operation::Case { scrutinee, arms } => {
                let mut lowered: Vec<CaseArm> = Vec::new();
                let mut k: usize = 0;
                while k < arms.len()
                    invariant
                        k <= arms@.len(),
                        supported_arms(arms@, 0),
                        0 <= base <= start.len(),
                        start.len() <= self.states@.len(),
                        forall|i: int| 0 <= i < start.len() ==> #[trigger] self.states@[i] == start[i],
                        emitted_in_order(self.states@, base),
                        destination_in(destination, base, start.len() as int),
                        lowered@.len() == k,
                        forall|j: int|
                            0 <= j < k ==> start.len() <= (#[trigger] lowered@[j]).target.0
                                < self.states@.len(),
                        forall|j: int|
                            0 <= j < k ==> arm_lowered(self.states@, #[trigger] lowered@[j], arms@[j], destination),
                        (*operation matches closure::Operation::Case { arms: a, .. } && a == *arms),
                    decreases arms@.len() - k,
                {
                    proof {
                        lemma_supported_arms(arms@, 0, k as int);
                    }
                    let arm = &arms[k];
                    proof {
                        assert(decreases_to!(*operation => arms@[k as int].value));
                    }
                    let ghost before = self.states@;
                    let target = self.lower_block(&arm.value, destination, Some(duplicate_pattern(&arm.pattern)), Ghost(base));
                    proof {
                        assert forall|j: int| 0 <= j < k implies arm_lowered(self.states@, #[trigger] lowered@[j], arms@[j], destination) by {
                            let t = lowered@[j].target.0 as int;
                            assert(arm_lowered(before, lowered@[j], arms@[j], destination));
                            lemma_carries_out_extended(before, self.states@, before[t], self.states@[t], arms@[j].value, 0, destination, t);
                        }
                    }
                    lowered.push(CaseArm { index: arm.index, target, span: arm.span });
                    proof {
                        assert(arm_lowered(self.states@, lowered@[k as int], arms@[k as int], destination));
                    }
                    k = k + 1;
                }
                proof {
                    lemma_lowers_arms(self.states@, lowered@, arms@, 0, destination, self.states@.len() as int);
                }
                lowered
            },
            _ => {
                proof {
                    assert(false);
                }
                Vec::new()
            },
        }
    }

    /// The states of a primitive branch: the blocks of both ways; the states that enter them.
    fn lower_branch(
        &mut self,
        operation: &closure::Operation,
        destination: Destination,
        Ghost(base): Ghost<int>,
    ) -> (entries: (StateId, StateId))
        requires
            operation is PrimitiveBranch,
            supported_operation(*operation),
            0 <= base <= old(self).states@.len(),
            emitted_in_order(old(self).states@, base),
            destination_in(destination, base, old(self).states@.len() as int),
        ensures
            extends(old(self).states@, final(self).states@, base),
            old(self).states@.len() <= entries.0.0 < final(self).states@.len(),
            old(self).states@.len() <= entries.1.0 < final(self).states@.len(),
            *operation matches closure::Operation::PrimitiveBranch { otherwise, then, .. }
                && carries_out(final(self).states@, final(self).states@[entries.0.0 as int], *otherwise, 0, destination, entries.0.0 as int)
                && carries_out(final(self).states@, final(self).states@[entries.1.0 as int], *then, 0, destination, entries.1.0 as int),
        decreases operation, 0nat,
    {
        match operation {
            closure::Operation::PrimitiveBranch { otherwise, then, .. } => {
                let otherwise_entry = self.lower_block(otherwise, destination, None, Ghost(base));
                let ghost middle = self.states@;
                let then_entry = self.lower_block(then, destination, None, Ghost(base));
                proof {
                    let o = otherwise_entry.0 as int;
                    lemma_carries_out_extended(middle, self.states@, middle[o], self.states@[o], **otherwise, 0, destination, o);
                }
                (otherwise_entry, then_entry)
            },
            _ => {
                proof {
                    assert(false);
                }
                (StateId(0), StateId(0))
            },
        }
    }

    /// The states of a block: control operations split it into states; the other operations
    /// become bindings of the state that follows them. A final call whose result the block
    /// returns becomes a tail call. The entry state, added last, takes `input`.
    fn lower_block(
        &mut self,
        block: &closure::Block,
        destination: Destination,
        input: Option<Pattern>,
        Ghost(base): Ghost<int>,
    ) -> (entry: StateId)
        requires
            supported_block(*block),
            0 <= base <= old(self).states@.len(),
            emitted_in_order(old(self).states@, base),
            destination_in(destination, base, old(self).states@.len() as int),
        ensures
            extends(old(self).states@, final(self).states@, base),
            entry.0 == final(self).states@.len() - 1,
            final(self).states@[entry.0 as int].input == input,
            carries_out(final(self).states@, final(self).states@[entry.0 as int], *block, 0, destination, entry.0 as int),
        decreases block, 1nat,
    {
        let ghost start = self.states@;
        let ghost bindings = block.bindings@;
        let length = block.bindings.len();
        let mut consumed = false;
        if length > 0 && returns_binding(&block.result, &block.bindings[length - 1].pattern) {
            consumed = match &block.bindings[length - 1].operation {
                closure::Operation::Call { .. } => match destination {
                    Destination::Return => true,
                    _ => false,
                },
                closure::Operation::Case { .. } => true,
                closure::Operation::PrimitiveBranch { .. } => true,
                _ => false,
            };
        }
        assert(consumed == ends_in_control(*block, destination));
        let mut count = if consumed {
            length - 1
        } else {
            length
        };
        let mut pending_bindings: Vec<Binding> = Vec::new();
        let mut pending_terminator: Terminator;
        let pending_span_first = block.span;
        let mut pending_span = pending_span_first;
        if consumed {
            proof {
                lemma_supported_bindings(bindings, 0, count as int);
                assert(decreases_to!(*block => bindings[count as int].operation));
            }
            let last = &block.bindings[count];
            match &last.operation {
                closure::Operation::Call { callee, argument } => {
                    pending_terminator = Terminator::TailCall {
                        callee: duplicate_atom(callee),
                        argument: duplicate_atom(argument),
                    };
                },
                closure::Operation::Case { scrutinee, .. } => {
                    let arms = self.lower_case(&last.operation, destination, Ghost(base));
                    let ghost targets = arms@;
                    pending_terminator = Terminator::Case { scrutinee: duplicate_atom(scrutinee), arms };
                    proof {
                        assert forall|k: int| 0 <= k < successor_ids(pending_terminator).len()
                            implies base <= #[trigger] successor_ids(pending_terminator)[k].0 < self.states@.len() by {
                            assert(successor_ids(pending_terminator)[k] == targets[k].target);
                        }
                    }
                },
                closure::Operation::PrimitiveBranch { operator, left, right, .. } => {
                    let entries = self.lower_branch(&last.operation, destination, Ghost(base));
                    pending_terminator = Terminator::PrimitiveBranch {
                        operator: *operator,
                        left: duplicate_atom(left),
                        right: duplicate_atom(right),
                        otherwise: entries.0,
                        then: entries.1,
                    };
                },
                _ => {
                    proof {
                        assert(false);
                    }
                    pending_terminator = Terminator::Return(duplicate_atom(&block.result));
                },
            }
        } else {
            pending_terminator = match destination {
                Destination::Return => Terminator::Return(duplicate_atom(&block.result)),
                Destination::Jump(target) => Terminator::Jump {
                    target,
                    value: duplicate_atom(&block.result),
                },
            };
        }
        proof {
            assert(next_control(bindings, count as int, chain_length(*block, destination)) == count);
        }
        while count > 0
            invariant
                bindings == block.bindings@,
                count <= chain_length(*block, destination),
                supported_block(*block),
                0 <= base <= start.len(),
                start.len() <= self.states@.len(),
                forall|i: int| 0 <= i < start.len() ==> #[trigger] self.states@[i] == start[i],
                emitted_in_order(self.states@, base),
                destination_in(destination, base, start.len() as int),
                forall|k: int|
                    0 <= k < successor_ids(pending_terminator).len() ==> base
                        <= #[trigger] successor_ids(pending_terminator)[k].0 < self.states@.len(),
                carries_out(
                    self.states@,
                    State { input: None, bindings: pending_bindings, terminator: pending_terminator, span: pending_span },
                    *block,
                    count as int,
                    destination,
                    self.states@.len() as int,
                ),
            decreases count,
        {
            count = count - 1;
            proof {
                lemma_supported_bindings(bindings, 0, count as int);
                assert(decreases_to!(*block => bindings[count as int].operation));
            }
            let binding = &block.bindings[count];
            let control = match &binding.operation {
                closure::Operation::Call { .. } => true,
                closure::Operation::Case { .. } => true,
                closure::Operation::PrimitiveBranch { .. } => true,
                _ => false,
            };
            if control {
                let ghost s0 = self.states@;
                let ghost pending = State { input: None, bindings: pending_bindings, terminator: pending_terminator, span: pending_span };
                let next = self.push_state(None, pending_bindings, pending_terminator, pending_span);
                let ghost s1 = self.states@;
                proof {
                    lemma_push_keeps_order(s0, s1, base);
                    lemma_carries_out_extended(s0, s1, pending, s1[next.0 as int], *block, count + 1, destination, next.0 as int);
                }
                let join = self.push_state(
                    Some(duplicate_pattern(&binding.pattern)),
                    Vec::new(),
                    Terminator::Goto(next),
                    binding.span,
                );
                let ghost s2 = self.states@;
                proof {
                    assert(successor_ids(s2[s1.len() as int].terminator)[0] == next);
                    lemma_push_keeps_order(s1, s2, base);
                    lemma_carries_out_extended(s1, s2, s1[next.0 as int], s2[next.0 as int], *block, count + 1, destination, next.0 as int);
                    assert(takes_value(s2[join.0 as int], bindings[count as int].pattern));
                }
                match &binding.operation {
                    closure::Operation::Call { callee, argument } => {
                        pending_terminator = Terminator::Call {
                            callee: duplicate_atom(callee),
                            argument: duplicate_atom(argument),
                            resume: join,
                            live: Vec::new(),
                            needs_environment: false,
                        };
                        proof {
                            assert(successor_ids(pending_terminator)[0] == join);
                        }
                    },
                    closure::Operation::Case { scrutinee, arms: source } => {
                        let arms = self.lower_case(&binding.operation, Destination::Jump(join), Ghost(base));
                        let ghost s3 = self.states@;
                        proof {
                            lemma_carries_out_extended(s2, s3, s2[next.0 as int], s3[next.0 as int], *block, count + 1, destination, next.0 as int);
                            assert(s3[join.0 as int] == s2[join.0 as int]);
                        }
                        let ghost targets = arms@;
                        pending_terminator = Terminator::Case { scrutinee: duplicate_atom(scrutinee), arms };
                        proof {
                            assert forall|k: int| 0 <= k < successor_ids(pending_terminator).len()
                                implies base <= #[trigger] successor_ids(pending_terminator)[k].0 < s3.len() by {
                                assert(successor_ids(pending_terminator)[k] == targets[k].target);
                            }
                        }
                    },
                    closure::Operation::PrimitiveBranch { operator, left, right, otherwise, then } => {
                        let entries = self.lower_branch(&binding.operation, Destination::Jump(join), Ghost(base));
                        let ghost s3 = self.states@;
                        proof {
                            lemma_carries_out_extended(s2, s3, s2[next.0 as int], s3[next.0 as int], *block, count + 1, destination, next.0 as int);
                            assert(s3[join.0 as int] == s2[join.0 as int]);
                        }
                        pending_terminator = Terminator::PrimitiveBranch {
                            operator: *operator,
                            left: duplicate_atom(left),
                            right: duplicate_atom(right),
                            otherwise: entries.0,
                            then: entries.1,
                        };
                    },
                    _ => {
                        proof {
                            assert(false);
                        }
                        pending_terminator = Terminator::Return(duplicate_atom(&block.result));
                    },
                }
                pending_bindings = Vec::new();
                pending_span = binding.span;
            } else {
                let lowered = Binding {
                    pattern: duplicate_pattern(&binding.pattern),
                    operation: lower_operation(&binding.operation),
                    span: binding.span,
                };
                let ghost old_bindings = pending_bindings@;
                pending_bindings.insert(0, lowered);
                proof {
                    assert(pending_bindings@ =~= seq![lowered] + old_bindings);
                }
            }
        }
        let ghost s0 = self.states@;
        let ghost pending = State { input: None, bindings: pending_bindings, terminator: pending_terminator, span: pending_span };
        let entry = self.push_state(input, pending_bindings, pending_terminator, pending_span);
        proof {
            lemma_push_keeps_order(s0, self.states@, base);
            lemma_carries_out_extended(s0, self.states@, pending, self.states@[entry.0 as int], *block, 0, destination, entry.0 as int);
        }
        entry
    }
}


/// Recording liveness keeps every state's successors.
proof fn lemma_liveness_keeps_order(
    before: Seq<State>,
    after: Seq<State>,
    start: int,
    locals: Seq<super::ast::LiveValue>,
)
    requires
        0 <= start <= before.len(),
        emitted_in_order(before, 0),
        after.len() == before.len(),
        forall|i: int| 0 <= i < start ==> #[trigger] after[i] == before[i],
        forall|i: int|
            start <= i < before.len() ==> records_liveness(before, start, locals, before[i], #[trigger] after[i]),
    ensures
        emitted_in_order(after, 0),
{
    assert forall|i: int, k: int|
        #![trigger successor_ids(after[i].terminator)[k]]
        0 <= i < after.len() && 0 <= k < successor_ids(after[i].terminator).len() implies 0
            <= successor_ids(after[i].terminator)[k].0 < i by {
        if i >= start {
            assert(records_liveness(before, start, locals, before[i], after[i]));
            assert(successor_ids(after[i].terminator) == successor_ids(before[i].terminator));
        }
        assert(successor_ids(before[i].terminator)[k] == successor_ids(after[i].terminator)[k]);
    }
}

/// States added from `start` on that pass control only within themselves keep the whole order.
proof fn lemma_extension_keeps_order(before: Seq<State>, after: Seq<State>, start: int)
    requires
        start == before.len(),
        emitted_in_order(before, 0),
        emitted_in_order(after, start),
        before.len() <= after.len(),
        forall|i: int| 0 <= i < before.len() ==> #[trigger] after[i] == before[i],
    ensures
        emitted_in_order(after, 0),
{
    assert forall|i: int, k: int|
        #![trigger successor_ids(after[i].terminator)[k]]
        0 <= i < after.len() && 0 <= k < successor_ids(after[i].terminator).len() implies 0
            <= successor_ids(after[i].terminator)[k].0 < i by {
        if i < start {
            assert(after[i] == before[i]);
            assert(successor_ids(before[i].terminator)[k] == successor_ids(after[i].terminator)[k]);
        }
    }
}

/// The closure program's top-level bindings and function bodies can all be lowered.
pub open spec fn lowerable(program: closure::Program) -> bool {
    &&& forall|k: int|
        0 <= k < program.bindings@.len() ==> supported_block(#[trigger] program.bindings@[k].value)
    &&& forall|k: int|
        0 <= k < program.functions@.len() ==> supported_block(#[trigger] program.functions@[k].body)
}

/// State `entry` of `states` takes no input and carries out `block`, returning its value.
pub open spec fn enters(states: Seq<State>, entry: StateId, block: closure::Block) -> bool {
    let e = entry.0 as int;
    &&& 0 <= e < states.len()
    &&& states[e].input is None
    &&& carries_out(states, states[e], block, 0, Destination::Return, e)
}

proof fn lemma_enters_kept(s1: Seq<State>, s2: Seq<State>, entry: StateId, block: closure::Block)
    requires
        enters(s1, entry, block),
        s1.len() <= s2.len(),
        forall|i: int| 0 <= i < s1.len() ==> same_shape(#[trigger] s2[i], s1[i]),
    ensures
        enters(s2, entry, block),
{
    let e = entry.0 as int;
    assert(same_shape(s2[e], s1[e]));
    lemma_carries_out_frame(s1, s2, s1[e], s2[e], block, 0, Destination::Return, e);
}

proof fn lemma_prefix_same_shape(s1: Seq<State>, s2: Seq<State>)
    requires
        s1.len() <= s2.len(),
        forall|i: int| 0 <= i < s1.len() ==> #[trigger] s2[i] == s1[i],
    ensures
        forall|i: int| 0 <= i < s1.len() ==> same_shape(#[trigger] s2[i], s1[i]),
{
    assert forall|i: int| 0 <= i < s1.len() implies same_shape(#[trigger] s2[i], s1[i]) by {
        lemma_same_shape_reflexive(s1[i]);
    }
}

proof fn lemma_liveness_same_shape(
    before: Seq<State>,
    after: Seq<State>,
    start: int,
    locals: Seq<super::ast::LiveValue>,
)
    requires
        0 <= start <= before.len(),
        after.len() == before.len(),
        forall|i: int| 0 <= i < start ==> #[trigger] after[i] == before[i],
        forall|i: int|
            start <= i < before.len() ==> records_liveness(before, start, locals, before[i], #[trigger] after[i]),
    ensures
        forall|i: int| 0 <= i < before.len() ==> same_shape(#[trigger] after[i], before[i]),
{
    assert forall|i: int| 0 <= i < before.len() implies same_shape(#[trigger] after[i], before[i]) by {
        lemma_same_shape_reflexive(before[i]);
        if i >= start {
            assert(records_liveness(before, start, locals, before[i], after[i]));
        }
    }
}

/// `lowered` describes the same top-level bindings and functions as `program`, each entering
/// one of its states, and its states pass control only to states emitted before them.
pub open spec fn lowers_program(program: closure::Program, lowered: Program) -> bool {
    let states = lowered.states@;
    &&& same_interface(lowered.interface, program.interface)
    &&& lowered.span == program.span
    &&& lowered.bindings@.len() == program.bindings@.len()
    &&& forall|k: int|
        0 <= k < lowered.bindings@.len() ==> {
            &&& same_top_level_pattern(
                (#[trigger] lowered.bindings@[k]).pattern,
                program.bindings@[k].pattern,
            )
            &&& lowered.bindings@[k].span == program.bindings@[k].span
            &&& lowered.bindings@[k].entry.0 < states.len()
            &&& enters(states, lowered.bindings@[k].entry, program.bindings@[k].value)
        }
    &&& lowered.functions@.len() == program.functions@.len()
    &&& forall|k: int|
        0 <= k < lowered.functions@.len() ==> {
            let function = #[trigger] lowered.functions@[k];
            let source = program.functions@[k];
            &&& function.id == source.id
            &&& function.parameter.binding == source.parameter.binding
            &&& function.parameter.span == source.parameter.span
            &&& function.parameter.ty.deep_equal(source.parameter.ty)
            &&& match source.kind {
                closure::FunctionKind::Ordinary { captures } => function.environment@.len()
                    == captures@.len() && forall|j: int|
                    0 <= j < captures@.len() ==> (#[trigger] function.environment@[j]).ty.deep_equal(
                        captures@[j].ty,
                    ),
            }
            &&& function.entry.0 < states.len()
            &&& enters(states, function.entry, source.body)
        }
    &&& emitted_in_order(states, 0)
    &&& targets_in_range(states)
}

proof fn lemma_order_in_range(states: Seq<State>)
    requires
        emitted_in_order(states, 0),
    ensures
        targets_in_range(states),
{
    assert forall|i: int, k: int|
        #![trigger successor_ids(states[i].terminator)[k]]
        0 <= i < states.len() && 0 <= k < successor_ids(states[i].terminator).len() implies successor_ids(
            states[i].terminator,
        )[k].0 < states.len() by {}
}

fn copy_captures(kind: &closure::FunctionKind) -> (environment: Vec<closure::CaptureField>)
    ensures
        match *kind {
            closure::FunctionKind::Ordinary { captures } => environment@.len() == captures@.len()
                && forall|j: int|
                0 <= j < captures@.len() ==> (#[trigger] environment@[j]).ty.deep_equal(
                    captures@[j].ty,
                ),
        },
{
    match kind {
        closure::FunctionKind::Ordinary { captures } => {
            let mut environment: Vec<closure::CaptureField> = Vec::new();
            let mut j: usize = 0;
            while j < captures.len()
                invariant
                    j <= captures@.len(),
                    environment@.len() == j,
                    forall|i: int|
                        0 <= i < j ==> (#[trigger] environment@[i]).ty.deep_equal(captures@[i].ty),
                decreases captures@.len() - j,
            {
                environment.push(closure::CaptureField { ty: duplicate_type(&captures[j].ty) });
                j = j + 1;
            }
            environment
        },
    }
}

/// Lowers a closure program to a graph of states: each top-level binding and each function body
/// becomes states that pass control only to states emitted before them, and each call records the
/// locals that live across it.
pub fn lower(program: &closure::Program) -> (lowered: Program)
    requires
        lowerable(*program),
    ensures
        lowers_program(*program, lowered),
{
    let mut lowerer = Lowerer { states: Vec::new() };
    let mut bindings: Vec<TopLevelBinding> = Vec::new();
    let mut k: usize = 0;
    while k < program.bindings.len()
        invariant
            lowerable(*program),
            k <= program.bindings@.len(),
            emitted_in_order(lowerer.states@, 0),
            bindings@.len() == k,
            forall|j: int|
                0 <= j < k ==> {
                    &&& same_top_level_pattern(
                        (#[trigger] bindings@[j]).pattern,
                        program.bindings@[j].pattern,
                    )
                    &&& bindings@[j].span == program.bindings@[j].span
                    &&& bindings@[j].entry.0 < lowerer.states@.len()
                    &&& enters(lowerer.states@, bindings@[j].entry, program.bindings@[j].value)
                },
        decreases program.bindings@.len() - k,
    {
        let binding = &program.bindings[k];
        assert(supported_block(program.bindings@[k as int].value));
        let locals = local_values(&binding.value, None);
        let start = lowerer.states.len();
        let ghost before = lowerer.states@;
        let entry = lowerer.lower_block(&binding.value, Destination::Return, None, Ghost(start as int));
        let ghost lowered_states = lowerer.states@;
        proof {
            lemma_extension_keeps_order(before, lowered_states, start as int);
        }
        resolve_liveness(&mut lowerer.states, start, &locals);
        proof {
            lemma_liveness_keeps_order(lowered_states, lowerer.states@, start as int, locals@);
            lemma_liveness_same_shape(lowered_states, lowerer.states@, start as int, locals@);
            lemma_prefix_same_shape(before, lowered_states);
            assert forall|j: int| 0 <= j < k implies enters(lowerer.states@, #[trigger] bindings@[j].entry, program.bindings@[j].value) by {
                lemma_enters_kept(before, lowered_states, bindings@[j].entry, program.bindings@[j].value);
                lemma_enters_kept(lowered_states, lowerer.states@, bindings@[j].entry, program.bindings@[j].value);
            }
            assert(enters(lowered_states, entry, binding.value));
            lemma_enters_kept(lowered_states, lowerer.states@, entry, binding.value);
        }
        bindings.push(
            TopLevelBinding {
                pattern: duplicate_top_level_pattern(&binding.pattern),
                entry,
                span: binding.span,
            },
        );
        k = k + 1;
    }
    let mut functions: Vec<Function> = Vec::new();
    let mut k: usize = 0;
    while k < program.functions.len()
        invariant
            lowerable(*program),
            k <= program.functions@.len(),
            emitted_in_order(lowerer.states@, 0),
            bindings@.len() == program.bindings@.len(),
            forall|j: int|
                0 <= j < bindings@.len() ==> (#[trigger] bindings@[j]).entry.0 < lowerer.states@.len()
                    && enters(lowerer.states@, bindings@[j].entry, program.bindings@[j].value),
            functions@.len() == k,
            forall|j: int|
                0 <= j < k ==> {
                    let function = #[trigger] functions@[j];
                    let source = program.functions@[j];
                    &&& function.id == source.id
                    &&& function.parameter.binding == source.parameter.binding
                    &&& function.parameter.span == source.parameter.span
                    &&& function.parameter.ty.deep_equal(source.parameter.ty)
                    &&& match source.kind {
                        closure::FunctionKind::Ordinary { captures } => function.environment@.len()
                            == captures@.len() && forall|i: int|
                            0 <= i < captures@.len() ==> (
                            #[trigger] function.environment@[i]).ty.deep_equal(captures@[i].ty),
                    }
                    &&& function.entry.0 < lowerer.states@.len()
                    &&& enters(lowerer.states@, function.entry, source.body)
                },
        decreases program.functions@.len() - k,
    {
        let function = &program.functions[k];
        assert(supported_block(program.functions@[k as int].body));
        let locals = local_values(&function.body, Some(&function.parameter));
        let start = lowerer.states.len();
        let ghost before = lowerer.states@;
        let entry = lowerer.lower_block(&function.body, Destination::Return, None, Ghost(start as int));
        let ghost lowered_states = lowerer.states@;
        proof {
            lemma_extension_keeps_order(before, lowered_states, start as int);
        }
        resolve_liveness(&mut lowerer.states, start, &locals);
        proof {
            lemma_liveness_keeps_order(lowered_states, lowerer.states@, start as int, locals@);
            lemma_liveness_same_shape(lowered_states, lowerer.states@, start as int, locals@);
            lemma_prefix_same_shape(before, lowered_states);
            assert forall|j: int| 0 <= j < bindings@.len() implies enters(lowerer.states@, #[trigger] bindings@[j].entry, program.bindings@[j].value) by {
                lemma_enters_kept(before, lowered_states, bindings@[j].entry, program.bindings@[j].value);
                lemma_enters_kept(lowered_states, lowerer.states@, bindings@[j].entry, program.bindings@[j].value);
            }
            assert forall|j: int| 0 <= j < k implies enters(lowerer.states@, #[trigger] functions@[j].entry, program.functions@[j].body) by {
                lemma_enters_kept(before, lowered_states, functions@[j].entry, program.functions@[j].body);
                lemma_enters_kept(lowered_states, lowerer.states@, functions@[j].entry, program.functions@[j].body);
            }
            assert(enters(lowered_states, entry, function.body));
            lemma_enters_kept(lowered_states, lowerer.states@, entry, function.body);
        }
        functions.push(
            Function {
                id: function.id,
                environment: copy_captures(&function.kind),
                parameter: closure::Parameter {
                    binding: function.parameter.binding,
                    ty: duplicate_type(&function.parameter.ty),
                    span: function.parameter.span,
                },
                entry,
            },
        );
        k = k + 1;
    }
    proof {
        lemma_order_in_range(lowerer.states@);
    }
    Program {
        interface: duplicate_interface(&program.interface),
        bindings,
        functions,
        states: lowerer.states,
        span: program.span,
    }
}

} // verus!
