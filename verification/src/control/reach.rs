use vstd::prelude::*;

use super::ast::{State, StateId, successor_ids};
use super::liveness::successors;

verus! {

/// Every successor of a state from `start` on is itself a state from `start` on.
pub open spec fn successors_within(states: Seq<State>, start: int) -> bool {
    forall|i: int, k: int|
        #![trigger successor_ids(states[i].terminator)[k]]
        start <= i < states.len() && 0 <= k < successor_ids(states[i].terminator).len() ==> start
            <= successor_ids(states[i].terminator)[k].0 < states.len()
}

/// `path` is a walk through the states from `start` on, each step from a state to one of its
/// successors.
pub open spec fn is_path(states: Seq<State>, start: int, path: Seq<int>) -> bool {
    &&& path.len() >= 1
    &&& forall|k: int| 0 <= k < path.len() ==> start <= #[trigger] path[k] < states.len()
    &&& forall|k: int|
        0 <= k < path.len() - 1 ==> successor_ids(states[#[trigger] path[k]].terminator).contains(
            StateId(path[k + 1] as usize),
        )
}

/// `path` ends at a state marked in `base` and passes no state marked in `blocked` before that;
/// the marks are by position from `start`.
pub open spec fn reaches_along(start: int, base: Seq<bool>, blocked: Seq<bool>, path: Seq<int>) -> bool {
    &&& base[path.last() - start]
    &&& forall|k: int| 0 <= k < path.len() - 1 ==> !blocked[#[trigger] path[k] - start]
}

/// From state `i`, a walk reaches a state marked in `base` without first passing one marked in
/// `blocked`: the least solution of `R(s) = base(s) || (!blocked(s) && R(t))` for a successor `t`.
pub open spec fn reaches(states: Seq<State>, start: int, base: Seq<bool>, blocked: Seq<bool>, i: int) -> bool {
    exists|path: Seq<int>|
        path[0] == i && #[trigger] is_path(states, start, path) && reaches_along(
            start,
            base,
            blocked,
            path,
        )
}

/// State `i` is marked in `base`, or is not blocked and has a successor marked in `marks`.
pub open spec fn step_holds(
    states: Seq<State>,
    start: int,
    base: Seq<bool>,
    blocked: Seq<bool>,
    marks: Seq<bool>,
    i: int,
) -> bool {
    ||| base[i - start]
    ||| !blocked[i - start] && exists|k: int|
        0 <= k < successor_ids(states[i].terminator).len() && marks[successor_ids(
            states[i].terminator,
        )[k].0 - start] && #[trigger] successor_ids(states[i].terminator)[k] == successor_ids(
            states[i].terminator,
        )[k]
}

/// How many entries of `marks` are false.
pub open spec fn count_false(marks: Seq<bool>) -> nat
    decreases marks.len(),
{
    if marks.len() == 0 {
        0
    } else {
        count_false(marks.drop_last()) + if marks.last() {
            0nat
        } else {
            1nat
        }
    }
}

proof fn lemma_count_false_set(marks: Seq<bool>, i: int)
    requires
        0 <= i < marks.len(),
        !marks[i],
    ensures
        count_false(marks.update(i, true)) + 1 == count_false(marks),
    decreases marks.len(),
{
    let updated = marks.update(i, true);
    if i == marks.len() - 1 {
        assert(updated.drop_last() =~= marks.drop_last());
    } else {
        assert(updated.drop_last() =~= marks.drop_last().update(i, true));
        lemma_count_false_set(marks.drop_last(), i);
    }
}

/// A marking closed under the step contains every state from which the walk reaches `base`.
proof fn lemma_closed_contains(
    states: Seq<State>,
    start: int,
    base: Seq<bool>,
    blocked: Seq<bool>,
    marks: Seq<bool>,
    path: Seq<int>,
)
    requires
        is_path(states, start, path),
        reaches_along(start, base, blocked, path),
        start >= 0,
        states.len() <= usize::MAX,
        marks.len() == states.len() - start,
        forall|i: int|
            start <= i < states.len() && #[trigger] step_holds(states, start, base, blocked, marks, i)
                ==> marks[i - start],
    ensures
        marks[path[0] - start],
    decreases path.len(),
{
    if path.len() == 1 {
        assert(step_holds(states, start, base, blocked, marks, path[0]));
    } else {
        let rest = path.drop_first();
        assert(rest[0] == path[1]);
        assert forall|k: int| 0 <= k < rest.len() implies start <= #[trigger] rest[k] < states.len() by {
            assert(rest[k] == path[k + 1]);
        }
        assert forall|k: int| 0 <= k < rest.len() - 1 implies successor_ids(
            states[#[trigger] rest[k]].terminator,
        ).contains(StateId(rest[k + 1] as usize)) by {
            assert(rest[k] == path[k + 1] && rest[k + 1] == path[k + 2]);
        }
        assert(rest.last() == path.last());
        assert forall|k: int| 0 <= k < rest.len() - 1 implies !blocked[#[trigger] rest[k] - start] by {
            assert(rest[k] == path[k + 1]);
        }
        lemma_closed_contains(states, start, base, blocked, marks, rest);
        let succs = successor_ids(states[path[0]].terminator);
        assert(succs.contains(StateId(path[1] as usize)));
        let k = choose|k: int| 0 <= k < succs.len() && succs[k] == StateId(path[1] as usize);
        assert(succs[k].0 == path[1]);
        assert(marks[succs[k].0 - start]);
        assert(!blocked[path[0] - start]);
        assert(step_holds(states, start, base, blocked, marks, path[0]));
    }
}

/// A walk from a successor `t` of an unblocked state `i` extends to a walk from `i`.
proof fn lemma_reaches_back(
    states: Seq<State>,
    start: int,
    base: Seq<bool>,
    blocked: Seq<bool>,
    i: int,
    t: int,
)
    requires
        start <= i < states.len(),
        states.len() <= usize::MAX,
        !blocked[i - start],
        successor_ids(states[i].terminator).contains(StateId(t as usize)),
        reaches(states, start, base, blocked, t),
    ensures
        reaches(states, start, base, blocked, i),
{
    let path = choose|path: Seq<int>|
        path[0] == t && #[trigger] is_path(states, start, path) && reaches_along(
            start,
            base,
            blocked,
            path,
        );
    let longer = seq![i] + path;
    assert(longer[0] == i);
    assert forall|k: int| 0 <= k < longer.len() implies start <= #[trigger] longer[k] < states.len() by {
        if k > 0 {
            assert(longer[k] == path[k - 1]);
        }
    }
    assert forall|k: int| 0 <= k < longer.len() - 1 implies successor_ids(
        states[#[trigger] longer[k]].terminator,
    ).contains(StateId(longer[k + 1] as usize)) by {
        if k > 0 {
            assert(longer[k] == path[k - 1] && longer[k + 1] == path[k]);
        } else {
            assert(longer[1] == path[0]);
        }
    }
    assert(longer.last() == path.last());
    assert forall|k: int| 0 <= k < longer.len() - 1 implies !blocked[#[trigger] longer[k] - start] by {
        if k > 0 {
            assert(longer[k] == path[k - 1]);
        }
    }
    assert(is_path(states, start, longer));
}

/// For each state from `start` on, whether a walk from it reaches a state marked in `base`
/// without first passing one marked in `blocked`, found by repeating the step until nothing
/// changes.
pub fn reach(states: &Vec<State>, start: usize, base: &Vec<bool>, blocked: &Vec<bool>) -> (reached: Vec<bool>)
    requires
        start <= states@.len(),
        base@.len() == states@.len() - start,
        blocked@.len() == states@.len() - start,
        successors_within(states@, start as int),
    ensures
        reached@.len() == states@.len() - start,
        forall|j: int|
            0 <= j < reached@.len() ==> #[trigger] reached@[j] == reaches(
                states@,
                start as int,
                base@,
                blocked@,
                start + j,
            ),
{
    let n = states.len() - start;
    let mut reached: Vec<bool> = Vec::new();
    while reached.len() < n
        invariant
            reached@.len() <= n,
            forall|j: int| 0 <= j < reached@.len() ==> !#[trigger] reached@[j],
        decreases n - reached@.len(),
    {
        reached.push(false);
    }
    loop
        invariant
            n == states@.len() - start,
            start <= states@.len() <= usize::MAX,
            base@.len() == n,
            blocked@.len() == n,
            successors_within(states@, start as int),
            reached@.len() == n,
            forall|j: int|
                0 <= j < n && #[trigger] reached@[j] ==> reaches(
                    states@,
                    start as int,
                    base@,
                    blocked@,
                    start + j,
                ),
        decreases count_false(reached@),
    {
        let ghost before = reached@;
        let mut changed = false;
        let mut index = n;
        while index > 0
            invariant
                n == states@.len() - start,
                start <= states@.len() <= usize::MAX,
                base@.len() == n,
                blocked@.len() == n,
                successors_within(states@, start as int),
                reached@.len() == n,
                index <= n,
                forall|j: int|
                    0 <= j < n && #[trigger] reached@[j] ==> reaches(
                        states@,
                        start as int,
                        base@,
                        blocked@,
                        start + j,
                    ),
                !changed ==> reached@ == before,
                changed ==> count_false(reached@) < count_false(before),
                !changed ==> forall|j: int|
                    index <= j < n && step_holds(
                        states@,
                        start as int,
                        base@,
                        blocked@,
                        reached@,
                        start + j,
                    ) ==> #[trigger] reached@[j],
            decreases index,
        {
            index = index - 1;
            assert(start + index < states@.len());
            if !reached[index] {
                let state = &states[start + index];
                let mut hit = base[index];
                if !hit && !blocked[index] {
                    let targets = successors(&state.terminator);
                    let ghost succs = successor_ids(states@[start + index].terminator);
                    let mut k: usize = 0;
                    while k < targets.len()
                        invariant
                            targets@ == succs,
                            succs == successor_ids(states@[start + index].terminator),
                            start + index < states@.len(),
                            successors_within(states@, start as int),
                            n == states@.len() - start,
                            reached@.len() == n,
                            k <= targets@.len(),
                            hit ==> exists|q: int|
                                0 <= q < succs.len() && reached@[succs[q].0 - start]
                                    && #[trigger] succs[q] == succs[q],
                            !hit ==> forall|q: int| 0 <= q < k ==> !reached@[#[trigger] succs[q].0 - start],
                        decreases targets@.len() - k,
                    {
                        assert(start <= succs[k as int].0 < states@.len());
                        if reached[targets[k].0 - start] {
                            hit = true;
                        }
                        k = k + 1;
                    }
                    proof {
                        if !hit {
                            assert forall|q: int|
                                0 <= q < succs.len() && reached@[succs[q].0 - start] implies false by {
                                assert(!reached@[succs[q].0 - start]);
                            }
                        }
                    }
                }
                if hit {
                    proof {
                        let i = start + index;
                        if base@[index as int] {
                            let path = seq![i as int];
                            assert(path.last() == i);
                            assert(is_path(states@, start as int, path));
                            assert(reaches_along(start as int, base@, blocked@, path));
                        } else {
                            let succs = successor_ids(states@[i as int].terminator);
                            let q = choose|q: int|
                                0 <= q < succs.len() && reached@[succs[q].0 - start]
                                    && #[trigger] succs[q] == succs[q];
                            let t = succs[q].0 as int;
                            assert(start <= t < states@.len());
                            assert(reached@[t - start]);
                            assert(succs.contains(StateId(t as usize)));
                            lemma_reaches_back(states@, start as int, base@, blocked@, i as int, t);
                        }
                        lemma_count_false_set(reached@, index as int);
                    }
                    reached.set(index, true);
                    changed = true;
                }
            }
        }
        if !changed {
            proof {
                assert forall|i: int|
                    start <= i < states@.len() && #[trigger] step_holds(
                        states@,
                        start as int,
                        base@,
                        blocked@,
                        reached@,
                        i,
                    ) implies reached@[i - start] by {
                    assert(step_holds(states@, start as int, base@, blocked@, reached@, start + (i - start)));
                }
                assert forall|j: int| 0 <= j < n implies #[trigger] reached@[j] == reaches(
                    states@,
                    start as int,
                    base@,
                    blocked@,
                    start + j,
                ) by {
                    if reaches(states@, start as int, base@, blocked@, start + j) {
                        let path = choose|path: Seq<int>|
                            path[0] == start + j && #[trigger] is_path(states@, start as int, path)
                                && reaches_along(start as int, base@, blocked@, path);
                        lemma_closed_contains(states@, start as int, base@, blocked@, reached@, path);
                    }
                }
            }
            return reached;
        }
    }
}

} // verus!
