//! What holds of every consistent scheduler, whatever sequence of admission
//! passes and completions led to it.

use crate::counting::{lemma_unfinished_bounds, occurrences};
use crate::scheduler::{TaskState, UnorderedSchedulerSystem};
use vstd::prelude::*;

verus! {

/// A task that is no longer blocked waits for nothing: every task that it
/// depends on has finished. In particular a task is queued, started or
/// finished only after each of its dependencies has reported completion.
pub proof fn lemma_dependencies_finish_first<B>(s: UnorderedSchedulerSystem<B>, task: int, dep: int)
    requires
        s.wf(),
        s.graph().depends_on(task, dep),
        s.states()[task] != TaskState::Blocked,
    ensures
        s.states()[dep] == TaskState::Finished,
{
    let deps = s.graph().dependencies(task);
    assert(s.deps_now()[task] == 0);
    lemma_unfinished_bounds(deps, s.states());
    let m = choose|m: int| 0 <= m < deps.len() && deps[m] == dep as usize;
    assert(s.states()[deps[m] as int] == TaskState::Finished);
}

/// Two different tasks that are running at the same moment have compatible
/// declared accesses.
pub proof fn lemma_running_tasks_compatible<B>(s: UnorderedSchedulerSystem<B>, a: int, b: int)
    requires
        s.wf(),
        0 <= a < s.graph().size(),
        0 <= b < s.graph().size(),
        a != b,
        s.states()[a] == TaskState::Admitted,
        s.states()[b] == TaskState::Admitted,
    ensures
        s.graph().compatible(a, b),
{
    let running = s.running();
    assert(running.contains(a as usize));
    assert(running.contains(b as usize));
    let i = choose|i: int| 0 <= i < running.len() && running[i] == a as usize;
    let j = choose|j: int| 0 <= j < running.len() && running[j] == b as usize;
    assert(s.graph().compatible(running[i] as int, running[j] as int));
}

/// Two tasks of which one writes a resource that the other touches are never
/// running at the same moment.
pub proof fn lemma_conflicting_tasks_exclusive<B>(s: UnorderedSchedulerSystem<B>, a: int, b: int)
    requires
        s.wf(),
        0 <= a < s.graph().size(),
        0 <= b < s.graph().size(),
        a != b,
        !s.graph().compatible(a, b),
    ensures
        !(s.states()[a] == TaskState::Admitted && s.states()[b] == TaskState::Admitted),
{
    if s.states()[a] == TaskState::Admitted && s.states()[b] == TaskState::Admitted {
        lemma_running_tasks_compatible(s, a, b);
    }
}

/// While nothing is queued, running or pending, every task whose number
/// under `rank` is below `bound` has finished.
proof fn lemma_finished_below<B>(s: UnorderedSchedulerSystem<B>, rank: Seq<nat>, bound: nat)
    requires
        s.wf(),
        s.graph().ranked_by(rank),
        s.complete(),
    ensures
        forall|i: int|
            0 <= i < s.graph().size() && rank[i] < bound ==> #[trigger] s.states()[i]
                == TaskState::Finished,
    decreases bound,
{
    if bound > 0 {
        lemma_finished_below(s, rank, (bound - 1) as nat);
        let graph = s.graph();
        let states = s.states();
        assert forall|i: int| 0 <= i < graph.size() && rank[i] < bound implies #[trigger] states[i]
            == TaskState::Finished by {
            if rank[i] == bound - 1 {
                let deps = graph.dependencies(i);
                assert forall|k: int| 0 <= k < deps.len() implies states[#[trigger] deps[k] as int]
                    == TaskState::Finished by {
                    let d = deps[k];
                    assert(d < graph.size());
                    assert(deps.contains(d));
                    assert(graph.depends_on(i, d as int));
                    assert(rank[d as int] < rank[i]);
                }
                lemma_unfinished_bounds(deps, states);
                assert(occurrences(s.dependants_scratch(), i as usize) == 0);
                assert(s.deps_now()[i] == 0);
                assert(!s.queued().contains(i as usize));
                assert(!s.running().contains(i as usize));
            }
        }
    }
}

/// When the run of a graph without cycles is complete, every task has
/// finished.
pub proof fn lemma_complete_run_finishes_all<B>(s: UnorderedSchedulerSystem<B>)
    requires
        s.wf(),
        s.graph().acyclic(),
        s.complete(),
    ensures
        forall|i: int| 0 <= i < s.graph().size() ==> #[trigger] s.states()[i] == TaskState::Finished,
{
    let rank = choose|rank: Seq<nat>| s.graph().ranked_by(rank);
    assert forall|i: int| 0 <= i < s.graph().size() implies #[trigger] s.states()[i]
        == TaskState::Finished by {
        lemma_finished_below(s, rank, rank[i] + 1);
    }
}

/// Two complete runs of one graph without cycles end with the same tasks
/// finished, whatever happened in the course of either.
pub proof fn lemma_runs_finish_the_same<B>(
    first: UnorderedSchedulerSystem<B>,
    second: UnorderedSchedulerSystem<B>,
)
    requires
        first.wf(),
        second.wf(),
        first.graph() == second.graph(),
        first.graph().acyclic(),
        first.complete(),
        second.complete(),
    ensures
        first.states() == second.states(),
{
    lemma_complete_run_finishes_all(first);
    lemma_complete_run_finishes_all(second);
    assert(first.states() =~= second.states());
}

} // verus!
