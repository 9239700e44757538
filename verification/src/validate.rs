//! Finding out whether a graph has a cycle, by going through a run in which
//! every started task finishes at once.

use crate::graph::SchedulerGraph;
use crate::guarantees::lemma_complete_run_finishes_all;
use crate::scheduler::{steps_forward, TaskState, UnorderedSchedulerSystem};
use vstd::prelude::*;

verus! {

/// The number of tasks that have not finished.
pub open spec fn pending(states: Seq<TaskState>) -> nat
    decreases states.len(),
{
    if states.len() == 0 {
        0
    } else {
        pending(states.drop_last()) + if states.last() == TaskState::Finished {
            0nat
        } else {
            1nat
        }
    }
}

/// When a task that had not finished finishes, one task fewer is pending.
proof fn lemma_pending_finish(states: Seq<TaskState>, id: int)
    requires
        0 <= id < states.len(),
        states[id] != TaskState::Finished,
    ensures
        pending(states.update(id, TaskState::Finished)) + 1 == pending(states),
    decreases states.len(),
{
    let after = states.update(id, TaskState::Finished);
    if id == states.len() - 1 {
        assert(after.drop_last() =~= states.drop_last());
    } else {
        lemma_pending_finish(states.drop_last(), id);
        assert(after.drop_last() =~= states.drop_last().update(id, TaskState::Finished));
    }
}

/// While tasks only move forward, no more of them are pending than before.
proof fn lemma_pending_forward(before: Seq<TaskState>, after: Seq<TaskState>)
    requires
        steps_forward(before, after),
    ensures
        pending(after) <= pending(before),
    decreases before.len(),
{
    if before.len() > 0 {
        assert forall|i: int| 0 <= i < before.len() - 1 implies crate::scheduler::advances(
            before.drop_last()[i],
            #[trigger] after.drop_last()[i],
        ) by {
            assert(crate::scheduler::advances(before[i], after[i]));
        }
        lemma_pending_forward(before.drop_last(), after.drop_last());
        assert(crate::scheduler::advances(before[before.len() - 1], after[before.len() - 1]));
    }
}

/// Whether `graph` is free of cycles. The graph comes back as it went in.
pub fn check_acyclic<B>(graph: SchedulerGraph<B>) -> (checked: (SchedulerGraph<B>, bool))
    requires
        graph.wf(),
    ensures
        checked.0 == graph,
        checked.1 == graph.acyclic(),
{
    let n = graph.len();
    let mut scheduler = UnorderedSchedulerSystem::new(graph);
    scheduler.prepare(0);
    let ghost mut rank: Seq<nat> = Seq::new(n as nat, |i: int| 0nat);
    let ghost mut round: nat = 0;
    loop
        invariant
            scheduler.wf(),
            scheduler.graph() == graph,
            n == graph.size(),
            rank.len() == n,
            scheduler.running().len() == 0,
            scheduler.dependants_scratch().len() == 0,
            forall|i: int|
                0 <= i < n && #[trigger] scheduler.states()[i] == TaskState::Finished ==> rank[i] <= round,
            forall|i: int, j: int|
                #[trigger] graph.depends_on(i, j) && scheduler.states()[i] == TaskState::Finished
                    ==> scheduler.states()[j] == TaskState::Finished && rank[j] < rank[i],
        ensures
            scheduler.complete(),
        decreases pending(scheduler.states()),
    {
        if scheduler.is_complete() {
            break ;
        }
        let ghost states_at_start = scheduler.states();
        let started = scheduler.admit_queued_systems();
        proof {
            round = round + 1;
            lemma_pending_forward(states_at_start, scheduler.states());
            assert(scheduler.running() =~= started@);
            assert(scheduler.states()[started@[0] as int] == TaskState::Admitted) by {
                assert(started@.contains(started@[0]));
            }
        }
        let ghost states_admitted = scheduler.states();
        while scheduler.running_systems().len() > 0
            invariant
                scheduler.wf(),
                scheduler.graph() == graph,
                n == graph.size(),
                rank.len() == n,
                round >= 1,
                pending(scheduler.states()) <= pending(states_at_start),
                scheduler.running().len() < started@.len() ==> pending(scheduler.states()) < pending(
                    states_at_start,
                ),
                scheduler.running().len() <= started@.len(),
                forall|i: int|
                    0 <= i < n && #[trigger] scheduler.states()[i] == TaskState::Finished ==> rank[i] <= round,
                forall|i: int, j: int|
                    #[trigger] graph.depends_on(i, j) && scheduler.states()[i] == TaskState::Finished
                        ==> scheduler.states()[j] == TaskState::Finished && rank[j] < rank[i],
                forall|i: int, j: int|
                    #[trigger] graph.depends_on(i, j) && scheduler.states()[i] == TaskState::Admitted
                        ==> scheduler.states()[j] == TaskState::Finished && rank[j] < round,
            decreases scheduler.running().len(),
        {
            let id = scheduler.running_systems()[0];
            let ghost states_before = scheduler.states();
            let ghost running_before = scheduler.running();
            proof {
                assert(running_before.contains(id));
                assert(id < n);
                assert(states_before[id as int] == TaskState::Admitted);
                // A task does not wait for itself while it runs.
                if graph.depends_on(id as int, id as int) {
                    assert(states_before[id as int] == TaskState::Finished);
                }
            }
            scheduler.process_finished_system(id);
            proof {
                lemma_pending_finish(states_before, id as int);
                rank = rank.update(id as int, round);
                assert(scheduler.running().len() == running_before.len() - 1) by {
                    let at = running_before.index_of(id);
                    assert(0 <= at < running_before.len());
                }
            }
        }
        let ghost states_finished = scheduler.states();
        scheduler.update_counters_and_queue_systems();
        proof {
            lemma_pending_forward(states_finished, scheduler.states());
            assert forall|i: int| 0 <= i < n implies (states_finished[i] == TaskState::Finished)
                == (#[trigger] scheduler.states()[i] == TaskState::Finished) by {}
        }
    }
    let mut all: bool = true;
    let mut i: usize = 0;
    while i < n
        invariant
            i <= n,
            n == graph.size(),
            scheduler.states().len() == n,
            all == (forall|k: int| 0 <= k < i ==> scheduler.states()[k] == TaskState::Finished),
        decreases n - i,
    {
        if scheduler.task_state(i) != TaskState::Finished {
            all = false;
        }
        i += 1;
    }
    proof {
        if all {
            assert(graph.ranked_by(rank));
        }
        if graph.acyclic() {
            lemma_complete_run_finishes_all(scheduler);
        }
    }
    (scheduler.into_graph(), all)
}

} // verus!
