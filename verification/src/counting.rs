//! Counting over sequences of task identifiers: how many entries of a list
//! of dependencies have not finished, and how often an identifier occurs in
//! a list of notifications.

use crate::scheduler::TaskState;
use vstd::prelude::*;

verus! {

/// The number of entries of `deps` that have not finished.
pub open spec fn unfinished(deps: Seq<usize>, states: Seq<TaskState>) -> nat
    decreases deps.len(),
{
    if deps.len() == 0 {
        0
    } else {
        unfinished(deps.drop_last(), states) + if states[deps.last() as int]
            == TaskState::Finished {
            0nat
        } else {
            1nat
        }
    }
}

/// How often `id` occurs in `s`.
pub open spec fn occurrences(s: Seq<usize>, id: usize) -> nat
    decreases s.len(),
{
    if s.len() == 0 {
        0
    } else {
        occurrences(s.drop_last(), id) + if s.last() == id {
            1nat
        } else {
            0nat
        }
    }
}

/// No more entries are unfinished than there are entries; all are
/// unfinished exactly when none has finished, and none is unfinished exactly
/// when all have finished.
pub proof fn lemma_unfinished_bounds(deps: Seq<usize>, states: Seq<TaskState>)
    ensures
        unfinished(deps, states) <= deps.len(),
        unfinished(deps, states) == deps.len() <==> forall|k: int|
            0 <= k < deps.len() ==> states[#[trigger] deps[k] as int] != TaskState::Finished,
        unfinished(deps, states) == 0 <==> forall|k: int|
            0 <= k < deps.len() ==> states[#[trigger] deps[k] as int] == TaskState::Finished,
    decreases deps.len(),
{
    if deps.len() > 0 {
        let front = deps.drop_last();
        lemma_unfinished_bounds(front, states);
        assert forall|k: int| 0 <= k < front.len() implies front[k] == deps[k] by {}
        if unfinished(deps, states) == deps.len() {
            assert forall|k: int| 0 <= k < deps.len() implies states[#[trigger] deps[k] as int]
                != TaskState::Finished by {
                if k < front.len() {
                    assert(front[k] == deps[k]);
                }
            }
        }
        if forall|k: int| 0 <= k < deps.len() ==> states[#[trigger] deps[k] as int] != TaskState::Finished {
            assert(states[deps[deps.len() - 1] as int] != TaskState::Finished);
            assert forall|k: int| 0 <= k < front.len() implies states[#[trigger] front[k] as int]
                != TaskState::Finished by {
                assert(front[k] == deps[k]);
            }
        }
        if unfinished(deps, states) == 0 {
            assert forall|k: int| 0 <= k < deps.len() implies states[#[trigger] deps[k] as int]
                == TaskState::Finished by {
                if k < front.len() {
                    assert(front[k] == deps[k]);
                }
            }
        }
        if forall|k: int| 0 <= k < deps.len() ==> states[#[trigger] deps[k] as int] == TaskState::Finished {
            assert(states[deps[deps.len() - 1] as int] == TaskState::Finished);
            assert forall|k: int| 0 <= k < front.len() implies states[#[trigger] front[k] as int]
                == TaskState::Finished by {
                assert(front[k] == deps[k]);
            }
        }
    }
}

/// Appending one entry raises the count of that entry by one and leaves
/// every other count as it was.
pub proof fn lemma_occurrences_push(s: Seq<usize>, x: usize, id: usize)
    ensures
        occurrences(s.push(x), id) == occurrences(s, id) + if x == id {
            1nat
        } else {
            0nat
        },
{
    assert(s.push(x).drop_last() =~= s);
}

/// Counts add up over concatenation.
pub proof fn lemma_occurrences_concat(a: Seq<usize>, b: Seq<usize>, id: usize)
    ensures
        occurrences(a + b, id) == occurrences(a, id) + occurrences(b, id),
    decreases b.len(),
{
    if b.len() == 0 {
        assert(a + b =~= a);
    } else {
        lemma_occurrences_concat(a, b.drop_last(), id);
        assert((a + b).drop_last() =~= a + b.drop_last());
    }
}

/// In a sequence without repetition an entry is counted once.
pub proof fn lemma_occurrences_distinct(s: Seq<usize>, id: usize)
    requires
        s.no_duplicates(),
    ensures
        occurrences(s, id) == if s.contains(id) {
            1nat
        } else {
            0nat
        },
    decreases s.len(),
{
    if s.len() > 0 {
        let front = s.drop_last();
        lemma_occurrences_distinct(front, id);
        if s.last() == id {
            if front.contains(id) {
                let k = choose|k: int| 0 <= k < front.len() && front[k] == id;
                assert(s[k] == s[s.len() - 1]);
            }
            assert(s[s.len() - 1] == id);
        } else {
            if s.contains(id) {
                let k = choose|k: int| 0 <= k < s.len() && s[k] == id;
                assert(front[k] == id);
            }
            if front.contains(id) {
                let k = choose|k: int| 0 <= k < front.len() && front[k] == id;
                assert(s[k] == id);
            }
        }
    }
}

/// A prefix holds an entry no more often than the whole sequence.
pub proof fn lemma_occurrences_take(s: Seq<usize>, k: int, id: usize)
    requires
        0 <= k <= s.len(),
    ensures
        occurrences(s.take(k), id) <= occurrences(s, id),
{
    lemma_occurrences_concat(s.take(k), s.skip(k), id);
    assert(s.take(k) + s.skip(k) =~= s);
}

/// The count of unfinished entries depends only on which tasks have
/// finished.
pub proof fn lemma_unfinished_congruent(deps: Seq<usize>, a: Seq<TaskState>, b: Seq<TaskState>)
    requires
        forall|k: int|
            0 <= k < deps.len() ==> (a[#[trigger] deps[k] as int] == TaskState::Finished) == (b[deps[k] as int]
                == TaskState::Finished),
    ensures
        unfinished(deps, a) == unfinished(deps, b),
    decreases deps.len(),
{
    if deps.len() > 0 {
        let front = deps.drop_last();
        assert forall|k: int| 0 <= k < front.len() implies (a[#[trigger] front[k] as int]
            == TaskState::Finished) == (b[front[k] as int] == TaskState::Finished) by {
            assert(front[k] == deps[k]);
        }
        lemma_unfinished_congruent(front, a, b);
        assert(deps[deps.len() - 1] == deps.last());
    }
}

/// When a task that had not finished finishes, the count of unfinished
/// entries drops by one where the task is an entry and stays where it is not.
pub proof fn lemma_unfinished_finish(deps: Seq<usize>, states: Seq<TaskState>, id: usize)
    requires
        deps.no_duplicates(),
        id < states.len(),
        states[id as int] != TaskState::Finished,
        forall|k: int| 0 <= k < deps.len() ==> (#[trigger] deps[k]) < states.len(),
    ensures
        unfinished(deps, states) == unfinished(deps, states.update(id as int, TaskState::Finished))
            + if deps.contains(id) {
            1nat
        } else {
            0nat
        },
    decreases deps.len(),
{
    let after = states.update(id as int, TaskState::Finished);
    if deps.len() > 0 {
        let front = deps.drop_last();
        assert(deps[deps.len() - 1] == deps.last());
        assert forall|k: int| 0 <= k < front.len() implies (#[trigger] front[k]) < states.len() by {
            assert(front[k] == deps[k]);
        }
        lemma_unfinished_finish(front, states, id);
        if deps.last() == id {
            if front.contains(id) {
                let k = choose|k: int| 0 <= k < front.len() && front[k] == id;
                assert(deps[k] == deps[deps.len() - 1]);
            }
            assert(deps.contains(id));
        } else {
            if deps.contains(id) {
                let k = choose|k: int| 0 <= k < deps.len() && deps[k] == id;
                assert(front[k] == id);
            }
            if front.contains(id) {
                let k = choose|k: int| 0 <= k < front.len() && front[k] == id;
                assert(deps[k] == id);
            }
        }
    } else {
        assert(!deps.contains(id));
    }
}

} // verus!
