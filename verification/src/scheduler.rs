//! The admission and completion bookkeeping of a run.
//!
//! The scheduler decides which tasks may start, raises the start signal of
//! each task that it admits, and records the tasks that report on its
//! channel that they have finished. It neither runs a task nor waits for
//! one: putting the tasks on a pool, where each waits for its start signal,
//! and waiting for the first report of a batch are the caller's part.
//!
//! Tasks are admitted in the order in which they became ready; tasks that are
//! ready from the outset are ordered by registration.

use crate::access::AccessSet;
use crate::counting::{
    lemma_occurrences_concat, lemma_occurrences_distinct, lemma_occurrences_push,
    lemma_occurrences_take, lemma_unfinished_bounds, lemma_unfinished_congruent,
    lemma_unfinished_finish, occurrences, unfinished,
};
use crate::sequences::{lemma_push_distinct, lemma_remove_distinct};
use crate::graph::{SchedulerGraph, SchedulerSystemContainer};
use crate::signals::{notify_one, try_recv, unbounded};
use async_channel::{Receiver, Sender, TryRecvError};
use vstd::prelude::*;

verus! {

broadcast use vstd::seq_lib::lemma_seq_contains_after_push;

/// Where a task stands in the current run.
#[derive(Clone, Copy, PartialEq, Eq, Structural, Debug)]
pub enum TaskState {
    /// Some dependency has not been accounted for yet.
    Blocked,
    /// Every dependency has finished; the task waits for admission.
    Ready,
    /// The task has been told to start and has not yet reported back.
    Admitted,
    /// The task has reported that it finished.
    Finished,
}

/// The tasks among the first `upto` that have no dependency, in order of
/// registration.
pub open spec fn roots<B>(graph: SchedulerGraph<B>, upto: nat) -> Seq<usize>
    decreases upto,
{
    if upto == 0 {
        Seq::empty()
    } else {
        let before = roots(graph, (upto - 1) as nat);
        if graph.containers()[upto - 1].deps_total == 0 {
            before.push((upto - 1) as usize)
        } else {
            before
        }
    }
}

/// The state in which every task begins a run.
pub open spec fn initial_states<B>(graph: SchedulerGraph<B>) -> Seq<TaskState> {
    Seq::new(
        graph.size(),
        |i: int|
            if graph.containers()[i].deps_total == 0 {
                TaskState::Ready
            } else {
                TaskState::Blocked
            },
    )
}

/// The dependency counters with which every run begins.
pub open spec fn initial_counters<B>(graph: SchedulerGraph<B>) -> Seq<usize> {
    Seq::new(graph.size(), |i: int| graph.containers()[i].deps_total)
}

/// Task `id` is compatible with every task of `running`.
pub open spec fn can_start<B>(graph: SchedulerGraph<B>, id: usize, running: Seq<usize>) -> bool {
    forall|k: int| 0 <= k < running.len() ==> graph.compatible(id as int, #[trigger] running[k] as int)
}

/// The tasks of `queued` that one admission pass starts, in order. A task is
/// started when it is compatible with every task that was running before the
/// pass and with every task that the pass started before it.
pub open spec fn admitted<B>(
    graph: SchedulerGraph<B>,
    queued: Seq<usize>,
    running: Seq<usize>,
) -> Seq<usize>
    decreases queued.len(),
{
    if queued.len() == 0 {
        Seq::empty()
    } else {
        let before = admitted(graph, queued.drop_last(), running);
        if can_start(graph, queued.last(), running + before) {
            before.push(queued.last())
        } else {
            before
        }
    }
}

/// The tasks of `queued` that one admission pass leaves waiting, in order.
pub open spec fn deferred<B>(
    graph: SchedulerGraph<B>,
    queued: Seq<usize>,
    running: Seq<usize>,
) -> Seq<usize>
    decreases queued.len(),
{
    if queued.len() == 0 {
        Seq::empty()
    } else {
        let before = deferred(graph, queued.drop_last(), running);
        if can_start(graph, queued.last(), running + admitted(graph, queued.drop_last(), running)) {
            before
        } else {
            before.push(queued.last())
        }
    }
}

/// The tasks that become ready when the notifications in `scratch` are
/// applied to the counters `counters`, in order: each task at the
/// notification that brings its counter to zero.
pub open spec fn released(scratch: Seq<usize>, counters: Seq<usize>) -> Seq<usize>
    decreases scratch.len(),
{
    if scratch.len() == 0 {
        Seq::empty()
    } else {
        let before = released(scratch.drop_last(), counters);
        if occurrences(scratch, scratch.last()) == counters[scratch.last() as int] {
            before.push(scratch.last())
        } else {
            before
        }
    }
}

/// The states once the tasks of `finished` have finished, one after the
/// other.
pub open spec fn states_after(states: Seq<TaskState>, finished: Seq<usize>) -> Seq<TaskState>
    decreases finished.len(),
{
    if finished.len() == 0 {
        states
    } else {
        states_after(states, finished.drop_last()).update(finished.last() as int, TaskState::Finished)
    }
}

/// The running tasks once the tasks of `finished` have left them, one after
/// the other.
pub open spec fn running_after(running: Seq<usize>, finished: Seq<usize>) -> Seq<usize>
    decreases finished.len(),
{
    if finished.len() == 0 {
        running
    } else {
        let before = running_after(running, finished.drop_last());
        before.remove(before.index_of(finished.last()))
    }
}

/// The pending notifications once the tasks of `finished` have finished, one
/// after the other: each adds its dependants.
pub open spec fn scratch_after<B>(
    graph: SchedulerGraph<B>,
    scratch: Seq<usize>,
    finished: Seq<usize>,
) -> Seq<usize>
    decreases finished.len(),
{
    if finished.len() == 0 {
        scratch
    } else {
        scratch_after(graph, scratch, finished.drop_last()) + graph.dependants(finished.last() as int)
    }
}

/// A task moves through its states in one direction: from `before` it is
/// either still there or one state further.
pub open spec fn advances(before: TaskState, after: TaskState) -> bool {
    ||| after == before
    ||| before == TaskState::Blocked && after == TaskState::Ready
    ||| before == TaskState::Ready && after == TaskState::Admitted
    ||| before == TaskState::Admitted && after == TaskState::Finished
}

/// No task of `after` is behind where it was in `before`, and none has
/// skipped a state.
pub open spec fn steps_forward(before: Seq<TaskState>, after: Seq<TaskState>) -> bool {
    &&& after.len() == before.len()
    &&& forall|i: int| 0 <= i < before.len() ==> advances(before[i], #[trigger] after[i])
}

/// The bookkeeping is consistent with the graph.
pub open spec fn consistent<B>(
    graph: SchedulerGraph<B>,
    states: Seq<TaskState>,
    counters: Seq<usize>,
    queued: Seq<usize>,
    running: Seq<usize>,
    scratch: Seq<usize>,
) -> bool {
    &&& graph.wf()
    &&& states.len() == graph.size()
    &&& counters.len() == graph.size()
    &&& queued.no_duplicates()
    &&& running.no_duplicates()
    &&& forall|k: int| 0 <= k < queued.len() ==> (#[trigger] queued[k]) < graph.size()
    &&& forall|k: int| 0 <= k < running.len() ==> (#[trigger] running[k]) < graph.size()
    &&& forall|k: int| 0 <= k < scratch.len() ==> (#[trigger] scratch[k]) < graph.size()
    &&& forall|i: int|
        0 <= i < graph.size() ==> (queued.contains(i as usize) <==> #[trigger] states[i]
            == TaskState::Ready)
    &&& forall|i: int|
        0 <= i < graph.size() ==> (running.contains(i as usize) <==> #[trigger] states[i]
            == TaskState::Admitted)
    &&& forall|i: int|
        0 <= i < graph.size() ==> (#[trigger] states[i] == TaskState::Blocked <==> counters[i] > 0)
    &&& forall|i: int|
        0 <= i < graph.size() ==> #[trigger] counters[i] == unfinished(
            graph.dependencies(i),
            states,
        ) + occurrences(scratch, i as usize)
    &&& forall|a: int, b: int|
        0 <= a < running.len() && 0 <= b < running.len() && a != b ==> graph.compatible(
            #[trigger] running[a] as int,
            #[trigger] running[b] as int,
        )
}

/// The roots among the first `upto` tasks are distinct, lie below `upto`,
/// and are exactly the tasks there that have no dependency.
pub proof fn lemma_roots<B>(graph: SchedulerGraph<B>, upto: nat)
    requires
        upto <= graph.size(),
        graph.size() <= usize::MAX,
    ensures
        roots(graph, upto).no_duplicates(),
        forall|k: int| 0 <= k < roots(graph, upto).len() ==> (#[trigger] roots(graph, upto)[k]) < upto,
        forall|i: int|
            0 <= i < upto ==> (roots(graph, upto).contains(i as usize)
                <==> (#[trigger] graph.containers()[i]).deps_total == 0),
    decreases upto,
{
    if upto > 0 {
        let before = roots(graph, (upto - 1) as nat);
        let last = (upto - 1) as usize;
        lemma_roots(graph, (upto - 1) as nat);
        let now = roots(graph, upto);
        if graph.containers()[upto - 1].deps_total == 0 {
            assert(now == before.push(last));
            assert(now[before.len() as int] == last);
            assert forall|i: int| 0 <= i < upto implies (now.contains(i as usize)
                <==> (#[trigger] graph.containers()[i]).deps_total == 0) by {
                if i < upto - 1 {
                    if before.contains(i as usize) {
                        let k = choose|k: int| 0 <= k < before.len() && before[k] == i as usize;
                        assert(now[k] == i as usize);
                    }
                    if now.contains(i as usize) {
                        let k = choose|k: int| 0 <= k < now.len() && now[k] == i as usize;
                        assert(k < before.len());
                        assert(before[k] == i as usize);
                    }
                }
            }
        } else {
            assert forall|i: int| 0 <= i < upto implies (now.contains(i as usize)
                <==> (#[trigger] graph.containers()[i]).deps_total == 0) by {
                if now.contains(i as usize) {
                    let k = choose|k: int| 0 <= k < now.len() && now[k] == i as usize;
                    assert(now[k] < upto - 1);
                }
            }
        }
    }
}

/// What became of one attempt to take a report from the channel.
#[derive(Clone, Copy, PartialEq, Eq, Structural, Debug)]
pub enum Report {
    /// The channel had no report.
    Nothing,
    /// The report named a running task, which is now recorded as finished.
    Finished(usize),
    /// The report named no running task and was dropped.
    Stray(usize),
}

/// What one pass over the channel of finished tasks found.
pub struct Drained {
    /// The tasks that were recorded as finished, in the order of their
    /// reports.
    pub finished: Vec<usize>,
    /// A report that named no running task, if the pass met one. The pass
    /// ended there and the report was dropped.
    pub stray: Option<usize>,
}

/// The bookkeeping of a scheduler: the graph it runs, the state and the
/// remaining dependency count of every task, the tasks that wait for
/// admission, the tasks that are running, and the notifications that have
/// been collected from finished tasks but not yet applied.
///
/// Between runs every task rests in [`TaskState::Finished`].
pub struct UnorderedSchedulerSystem<B> {
    /// Used by tasks to report that they have finished.
    sender: Sender<usize>,
    /// Used to receive the reports of finished tasks.
    receiver: Receiver<usize>,
    graph: SchedulerGraph<B>,
    states: Vec<TaskState>,
    deps_now: Vec<usize>,
    queued: Vec<usize>,
    running: Vec<usize>,
    dependants_scratch: Vec<usize>,
    last_archetypes_generation: Option<u64>,
}

impl<B> UnorderedSchedulerSystem<B> {
    /// The sending end of the scheduler's channel.
    pub closed spec fn report_sender(&self) -> Sender<usize> {
        self.sender
    }

    /// The receiving end of the scheduler's channel.
    pub closed spec fn report_receiver(&self) -> Receiver<usize> {
        self.receiver
    }

    /// The graph that the scheduler runs.
    pub closed spec fn graph(&self) -> SchedulerGraph<B> {
        self.graph
    }

    /// The state of every task, by identifier.
    pub closed spec fn states(&self) -> Seq<TaskState> {
        self.states@
    }

    /// For every task, the number of dependencies that it still waits for.
    pub closed spec fn deps_now(&self) -> Seq<usize> {
        self.deps_now@
    }

    /// The tasks that wait for admission, oldest first.
    pub closed spec fn queued(&self) -> Seq<usize> {
        self.queued@
    }

    /// The tasks that are running, in order of admission.
    pub closed spec fn running(&self) -> Seq<usize> {
        self.running@
    }

    /// The dependants of finished tasks whose counters have not been
    /// updated yet.
    pub closed spec fn dependants_scratch(&self) -> Seq<usize> {
        self.dependants_scratch@
    }

    /// The generation of the world that the last run saw, if there was a run.
    pub closed spec fn last_archetypes_generation(&self) -> Option<u64> {
        self.last_archetypes_generation
    }

    /// The bookkeeping is consistent with the graph.
    pub open spec fn wf(&self) -> bool {
        consistent(
            self.graph(),
            self.states(),
            self.deps_now(),
            self.queued(),
            self.running(),
            self.dependants_scratch(),
        )
    }

    /// No task waits for admission, none is running and no notification is
    /// pending: the run is over, or none has begun.
    pub open spec fn complete(&self) -> bool {
        &&& self.queued().len() == 0
        &&& self.running().len() == 0
        &&& self.dependants_scratch().len() == 0
    }

    /// A scheduler for `graph`, at rest.
    pub fn new(graph: SchedulerGraph<B>) -> (s: Self)
        requires
            graph.wf(),
        ensures
            s.wf(),
            s.graph() == graph,
            s.states() == Seq::new(graph.size(), |i: int| TaskState::Finished),
            s.deps_now() == Seq::new(graph.size(), |i: int| 0usize),
            s.queued() == Seq::<usize>::empty(),
            s.running() == Seq::<usize>::empty(),
            s.dependants_scratch() == Seq::<usize>::empty(),
            s.last_archetypes_generation() == None::<u64>,
    {
        let n = graph.len();
        let mut states: Vec<TaskState> = Vec::new();
        let mut deps_now: Vec<usize> = Vec::new();
        let mut i: usize = 0;
        while i < n
            invariant
                i <= n,
                states@ == Seq::new(i as nat, |k: int| TaskState::Finished),
                deps_now@ == Seq::new(i as nat, |k: int| 0usize),
            decreases n - i,
        {
            states.push(TaskState::Finished);
            deps_now.push(0);
            i += 1;
            assert(states@ =~= Seq::new(i as nat, |k: int| TaskState::Finished));
            assert(deps_now@ =~= Seq::new(i as nat, |k: int| 0usize));
        }
        proof {
            assert forall|j: int| 0 <= j < graph.size() implies #[trigger] deps_now@[j] == unfinished(
                graph.dependencies(j),
                states@,
            ) + occurrences(Seq::<usize>::empty(), j as usize) by {
                lemma_unfinished_bounds(graph.dependencies(j), states@);
            }
        }
        let (sender, receiver) = unbounded();
        UnorderedSchedulerSystem {
            sender,
            receiver,
            graph,
            states,
            deps_now,
            queued: Vec::new(),
            running: Vec::new(),
            dependants_scratch: Vec::new(),
            last_archetypes_generation: None,
        }
    }

    /// Gives the graph back and drops the bookkeeping.
    pub fn into_graph(self) -> (graph: SchedulerGraph<B>)
        ensures
            graph == self.graph(),
    {
        self.graph
    }

    /// The sending end of the channel on which tasks report that they have
    /// finished. Every task gets a copy of it.
    pub fn sender(&self) -> (sender: &Sender<usize>)
        ensures
            *sender == self.report_sender(),
    {
        &self.sender
    }

    /// The receiving end of the channel on which tasks report that they have
    /// finished.
    pub fn receiver(&self) -> (receiver: &Receiver<usize>)
        ensures
            *receiver == self.report_receiver(),
    {
        &self.receiver
    }

    /// The graph that the scheduler runs.
    pub fn system_graph(&self) -> (graph: &SchedulerGraph<B>)
        ensures
            *graph == self.graph(),
    {
        &self.graph
    }

    /// The state of task `id`.
    pub fn task_state(&self, id: usize) -> (state: TaskState)
        requires
            id < self.states().len(),
        ensures
            state == self.states()[id as int],
    {
        self.states[id]
    }

    /// The number of dependencies that task `id` still waits for.
    pub fn remaining_dependencies(&self, id: usize) -> (count: usize)
        requires
            id < self.deps_now().len(),
        ensures
            count == self.deps_now()[id as int],
    {
        self.deps_now[id]
    }

    /// The tasks that wait for admission, oldest first.
    pub fn queued_systems(&self) -> (queued: &Vec<usize>)
        ensures
            queued@ == self.queued(),
    {
        &self.queued
    }

    /// The tasks that are running, in order of admission.
    pub fn running_systems(&self) -> (running: &Vec<usize>)
        ensures
            running@ == self.running(),
    {
        &self.running
    }

    /// Replaces the declared accesses of task `id`, as after a change of the
    /// world's layout. Nothing may be running: the tasks that run together
    /// were admitted on the accesses declared before.
    pub fn update_access(&mut self, id: usize, resource_access: AccessSet, archetype_access: AccessSet)
        requires
            old(self).wf(),
            id < old(self).graph().size(),
            old(self).running().len() == 0,
        ensures
            final(self).wf(),
            final(self).report_sender() == old(self).report_sender(),
            final(self).report_receiver() == old(self).report_receiver(),
            final(self).states() == old(self).states(),
            final(self).deps_now() == old(self).deps_now(),
            final(self).queued() == old(self).queued(),
            final(self).running() == old(self).running(),
            final(self).dependants_scratch() == old(self).dependants_scratch(),
            final(self).last_archetypes_generation() == old(self).last_archetypes_generation(),
            final(self).graph().size() == old(self).graph().size(),
            final(self).graph().containers()[id as int] == (SchedulerSystemContainer {
                resource_access,
                archetype_access,
                ..old(self).graph().containers()[id as int]
            }),
            forall|i: int|
                0 <= i < old(self).graph().size() && i != id ==> final(self).graph().containers()[i]
                    == old(self).graph().containers()[i],
            old(self).graph().acyclic() ==> final(self).graph().acyclic(),
    {
        self.graph.set_access(id, resource_access, archetype_access);
    }

    /// Begins a run. Every counter is reset to the number of dependencies of
    /// its task, the tasks without dependencies are queued in order of
    /// registration, and nothing is running. Whatever the scheduler held
    /// before has no influence on the state in which the run begins.
    ///
    /// Returns whether the declared accesses are stale, that is whether
    /// `generation` differs from the generation that the previous run saw.
    pub fn prepare(&mut self, generation: u64) -> (stale: bool)
        requires
            old(self).wf(),
        ensures
            final(self).wf(),
            final(self).graph() == old(self).graph(),
            final(self).report_sender() == old(self).report_sender(),
            final(self).report_receiver() == old(self).report_receiver(),
            final(self).states() == initial_states(old(self).graph()),
            final(self).deps_now() == initial_counters(old(self).graph()),
            final(self).queued() == roots(old(self).graph(), old(self).graph().size()),
            final(self).running() == Seq::<usize>::empty(),
            final(self).dependants_scratch() == Seq::<usize>::empty(),
            final(self).last_archetypes_generation() == Some(generation),
            stale == (old(self).last_archetypes_generation() != Some(generation)),
    {
        let n = self.graph.len();
        self.queued.clear();
        self.running.clear();
        self.dependants_scratch.clear();
        let mut i: usize = 0;
        while i < n
            invariant
                i <= n,
                n == self.graph.size(),
                self.graph == old(self).graph,
                self.sender == old(self).sender,
                self.receiver == old(self).receiver,
                self.graph.wf(),
                self.states@.len() == n,
                self.deps_now@.len() == n,
                self.running@ == Seq::<usize>::empty(),
                self.dependants_scratch@ == Seq::<usize>::empty(),
                self.last_archetypes_generation == old(self).last_archetypes_generation,
                self.queued@ == roots(self.graph, i as nat),
                forall|k: int| 0 <= k < i ==> self.states@[k] == initial_states(self.graph)[k],
                forall|k: int| 0 <= k < i ==> self.deps_now@[k] == initial_counters(self.graph)[k],
            decreases n - i,
        {
            let total = self.graph.container(i).deps_total;
            self.deps_now[i] = total;
            if total == 0 {
                self.states[i] = TaskState::Ready;
                self.queued.push(i);
            } else {
                self.states[i] = TaskState::Blocked;
            }
            i += 1;
        }
        let stale = match self.last_archetypes_generation {
            Some(seen) => seen != generation,
            None => true,
        };
        self.last_archetypes_generation = Some(generation);
        proof {
            let graph = self.graph;
            assert(self.states@ =~= initial_states(graph));
            assert(self.deps_now@ =~= initial_counters(graph));
            lemma_roots(graph, n as nat);
            assert forall|j: int| 0 <= j < graph.size() implies #[trigger] self.deps_now@[j]
                == unfinished(graph.dependencies(j), self.states@) + occurrences(
                Seq::<usize>::empty(),
                j as usize,
            ) by {
                lemma_unfinished_bounds(graph.dependencies(j), self.states@);
                assert(graph.containers()[j].deps_total == graph.dependencies(j).len());
            }
            assert forall|j: int| 0 <= j < graph.size() implies (self.queued@.contains(j as usize)
                <==> #[trigger] self.states@[j] == TaskState::Ready) by {
                assert(graph.containers()[j].deps_total == 0 <==> self.queued@.contains(j as usize));
            }
        }
        stale
    }

    /// Whether the run is over: no task waits for admission, none is running
    /// and no notification is pending.
    pub fn is_complete(&self) -> (done: bool)
        ensures
            done == self.complete(),
    {
        self.queued.len() == 0 && self.running.len() == 0 && self.dependants_scratch.len() == 0
    }

    /// Compares task `id` with every running task.
    fn compatible_with_running(&self, id: usize) -> (ok: bool)
        requires
            id < self.graph.size(),
            forall|k: int| 0 <= k < self.running@.len() ==> (#[trigger] self.running@[k]) < self.graph.size(),
        ensures
            ok == can_start(self.graph, id, self.running@),
    {
        let mut k: usize = 0;
        while k < self.running.len()
            invariant
                id < self.graph.size(),
                forall|j: int|
                    0 <= j < self.running@.len() ==> (#[trigger] self.running@[j]) < self.graph.size(),
                k <= self.running@.len(),
                forall|j: int|
                    0 <= j < k ==> self.graph.compatible(id as int, #[trigger] self.running@[j] as int),
            decreases self.running@.len() - k,
        {
            let other = self.running[k];
            if !self.graph.is_compatible(id, other) {
                return false;
            }
            k += 1;
        }
        true
    }

    /// Whether task `id` can run at the same time as every task that is
    /// running now.
    pub fn can_start_now(&self, id: usize) -> (ok: bool)
        requires
            self.wf(),
            id < self.graph().size(),
        ensures
            ok == can_start(self.graph(), id, self.running()),
    {
        self.compatible_with_running(id)
    }

    /// One admission pass without the start signals. Goes through the queued
    /// tasks, oldest first, and admits each one that is compatible with every
    /// task running at that moment, the tasks admitted earlier in the same
    /// pass included. The admitted tasks move from the queue to the running
    /// tasks; the others stay queued in their order.
    ///
    /// Returns the admitted tasks in the order in which they were admitted.
    pub fn admit_queued_systems(&mut self) -> (started: Vec<usize>)
        requires
            old(self).wf(),
        ensures
            final(self).wf(),
            final(self).graph() == old(self).graph(),
            final(self).report_sender() == old(self).report_sender(),
            final(self).report_receiver() == old(self).report_receiver(),
            final(self).deps_now() == old(self).deps_now(),
            final(self).dependants_scratch() == old(self).dependants_scratch(),
            final(self).last_archetypes_generation() == old(self).last_archetypes_generation(),
            started@ == admitted(old(self).graph(), old(self).queued(), old(self).running()),
            final(self).running() == old(self).running() + started@,
            final(self).queued() == deferred(old(self).graph(), old(self).queued(), old(self).running()),
            final(self).states().len() == old(self).states().len(),
            forall|i: int|
                0 <= i < old(self).states().len() ==> #[trigger] final(self).states()[i] == (if started@.contains(
                    i as usize,
                ) {
                    TaskState::Admitted
                } else {
                    old(self).states()[i]
                }),
            forall|k: int| 0 <= k < started@.len() ==> (#[trigger] started@[k]) < old(self).graph().size(),
            forall|k: int|
                0 <= k < started@.len() ==> old(self).states()[#[trigger] started@[k] as int]
                    == TaskState::Ready,
            forall|k: int, dep: int|
                0 <= k < started@.len() && #[trigger] old(self).graph().depends_on(
                    #[trigger] started@[k] as int,
                    dep,
                ) ==> old(self).states()[dep] == TaskState::Finished,
            steps_forward(old(self).states(), final(self).states()),
            old(self).running().len() == 0 && old(self).queued().len() > 0 ==> started@.len() > 0
                && started@[0] == old(self).queued()[0],
    {
        let ghost graph = self.graph;
        let ghost queued0 = self.queued@;
        let ghost running0 = self.running@;
        let ghost states0 = self.states@;
        let ghost n = self.graph.size();
        let mut started: Vec<usize> = Vec::new();
        let mut remaining: Vec<usize> = Vec::new();
        let mut k: usize = 0;
        proof {
            assert(queued0.take(0) =~= Seq::<usize>::empty());
            assert(running0 + started@ =~= running0);
        }
        while k < self.queued.len()
            invariant
                old(self).wf(),
                graph == old(self).graph,
                queued0 == old(self).queued@,
                running0 == old(self).running@,
                states0 == old(self).states@,
                n == graph.size(),
                self.graph == graph,
                self.sender == old(self).sender,
                self.receiver == old(self).receiver,
                self.queued@ == queued0,
                self.deps_now@ == old(self).deps_now@,
                self.dependants_scratch@ == old(self).dependants_scratch@,
                self.last_archetypes_generation == old(self).last_archetypes_generation,
                k <= queued0.len(),
                self.states@.len() == n,
                started@ == admitted(graph, queued0.take(k as int), running0),
                remaining@ == deferred(graph, queued0.take(k as int), running0),
                self.running@ == running0 + started@,
                self.running@.no_duplicates(),
                forall|j: int| 0 <= j < self.running@.len() ==> (#[trigger] self.running@[j]) < n,
                forall|a: int, b: int|
                    0 <= a < self.running@.len() && 0 <= b < self.running@.len() && a != b
                        ==> graph.compatible(
                        #[trigger] self.running@[a] as int,
                        #[trigger] self.running@[b] as int,
                    ),
                forall|i: int|
                    0 <= i < n ==> (self.running@.contains(i as usize) <==> #[trigger] self.states@[i]
                        == TaskState::Admitted),
                forall|i: int|
                    0 <= i < n ==> (started@.contains(i as usize) <==> (#[trigger] self.states@[i]
                        == TaskState::Admitted && states0[i] == TaskState::Ready)),
                forall|i: int|
                    0 <= i < n ==> (#[trigger] self.states@[i] == states0[i] || (states0[i]
                        == TaskState::Ready && self.states@[i] == TaskState::Admitted)),
                forall|j: int| 0 <= j < started@.len() ==> (#[trigger] started@[j]) < n,
                forall|i: int|
                    0 <= i < n && #[trigger] started@.contains(i as usize) ==> queued0.take(
                        k as int,
                    ).contains(i as usize),
                remaining@.no_duplicates(),
                forall|j: int| 0 <= j < remaining@.len() ==> (#[trigger] remaining@[j]) < n,
                forall|i: int|
                    0 <= i < n ==> (#[trigger] remaining@.contains(i as usize) <==> (queued0.take(
                        k as int,
                    ).contains(i as usize) && self.states@[i] == TaskState::Ready)),
                running0.len() == 0 && k > 0 ==> started@.len() > 0 && started@[0] == queued0[0],
            decreases queued0.len() - k,
        {
            let id = self.queued[k];
            let ghost prefix = queued0.take(k as int);
            let ghost next = queued0.take(k + 1);
            let ghost started_before = started@;
            let ghost remaining_before = remaining@;
            let ghost running_before = self.running@;
            let ghost states_before = self.states@;
            proof {
                assert(next =~= prefix.push(id));
                assert(next.drop_last() =~= prefix);
                assert(next.last() == id);
                assert(queued0[k as int] == id);
                assert(id < n);
                // The task has not been looked at before, so it is still ready.
                assert(queued0.contains(id));
                assert(states0[id as int] == TaskState::Ready);
                if prefix.contains(id) {
                    let m = choose|m: int| 0 <= m < prefix.len() && prefix[m] == id;
                    assert(queued0[m] == queued0[k as int]);
                }
                assert(!started@.contains(id));
                assert(self.states@[id as int] == TaskState::Ready);
                assert(!self.running@.contains(id));
            }
            if self.compatible_with_running(id) {
                self.running.push(id);
                self.states[id] = TaskState::Admitted;
                started.push(id);
                proof {
                    assert(started@ == started_before.push(id));
                    assert(self.running@ == running_before.push(id));
                    assert(self.running@ =~= running0 + started@);
                    assert(self.running@[running_before.len() as int] == id);
                    assert(started@[started_before.len() as int] == id);
                    assert forall|a: int, b: int|
                        0 <= a < self.running@.len() && 0 <= b < self.running@.len() && a
                            != b implies graph.compatible(
                        #[trigger] self.running@[a] as int,
                        #[trigger] self.running@[b] as int,
                    ) by {
                        if a == running_before.len() {
                            assert(graph.compatible(id as int, running_before[b] as int));
                        } else if b == running_before.len() {
                            assert(graph.compatible(id as int, running_before[a] as int));
                            graph.lemma_compatible_symmetric(id as int, running_before[a] as int);
                        } else {
                            assert(graph.compatible(running_before[a] as int, running_before[b] as int));
                        }
                    }
                    lemma_push_distinct(running_before, id);
                    if running0.len() == 0 && k == 0 {
                        assert(started_before.len() == 0);
                    }
                }
            } else {
                remaining.push(id);
                proof {
                    assert(remaining@ == remaining_before.push(id));
                    assert(remaining@[remaining_before.len() as int] == id);
                    assert(!remaining_before.contains(id));
                    lemma_push_distinct(remaining_before, id);
                    if running0.len() == 0 && k == 0 {
                        // With nothing running the task would have been started.
                        assert(self.running@.len() == 0);
                        assert(false);
                    }
                }
            }
            proof {
                assert forall|i: int| 0 <= i < n && #[trigger] started@.contains(i as usize) implies next.contains(
                    i as usize,
                ) by {
                    let x = i as usize;
                    assert(next.contains(x) <==> (prefix.contains(x) || x == id));
                    if started_before.contains(x) {
                        assert(prefix.contains(x));
                    } else {
                        assert(x == id);
                    }
                }
                assert forall|i: int| 0 <= i < n implies (#[trigger] remaining@.contains(i as usize) <==> (
                next.contains(i as usize) && self.states@[i] == TaskState::Ready)) by {
                    let x = i as usize;
                    assert(next.contains(x) <==> (prefix.contains(x) || x == id));
                    assert(remaining_before.contains(x) <==> (prefix.contains(x) && states_before[i]
                        == TaskState::Ready));
                }
            }
            k += 1;
        }
        self.queued = remaining;
        proof {
            assert(queued0.take(queued0.len() as int) =~= queued0);
            assert forall|i: int| 0 <= i < n implies #[trigger] self.deps_now@[i] == unfinished(
                graph.dependencies(i),
                self.states@,
            ) + occurrences(self.dependants_scratch@, i as usize) by {
                let deps = graph.dependencies(i);
                assert forall|d: int| 0 <= d < deps.len() implies (states0[#[trigger] deps[d] as int]
                    == TaskState::Finished) == (self.states@[deps[d] as int] == TaskState::Finished) by {
                    assert(deps[d] < n);
                    let t = deps[d] as int;
                    assert(self.states@[t] == states0[t] || (states0[t] == TaskState::Ready
                        && self.states@[t] == TaskState::Admitted));
                }
                lemma_unfinished_congruent(deps, states0, self.states@);
            }
            assert forall|i: int| 0 <= i < n implies (#[trigger] self.states@[i] == TaskState::Blocked
                <==> self.deps_now@[i] > 0) by {
                assert(states0[i] == TaskState::Blocked <==> old(self).deps_now@[i] > 0);
            }
            assert forall|i: int| 0 <= i < n implies (self.queued@.contains(i as usize)
                <==> #[trigger] self.states@[i] == TaskState::Ready) by {
                assert(remaining@.contains(i as usize) <==> (queued0.contains(i as usize)
                    && self.states@[i] == TaskState::Ready));
                assert(queued0.contains(i as usize) <==> states0[i] == TaskState::Ready);
            }
            assert forall|k: int| 0 <= k < started@.len() implies states0[#[trigger] started@[k] as int]
                == TaskState::Ready by {
                assert(started@.contains(started@[k]));
            }
            assert forall|k: int, dep: int|
                0 <= k < started@.len() && #[trigger] graph.depends_on(
                    #[trigger] started@[k] as int,
                    dep,
                ) implies states0[dep] == TaskState::Finished by {
                let task = started@[k] as int;
                assert(states0[task] == TaskState::Ready);
                assert(old(self).deps_now@[task] == 0);
                lemma_unfinished_bounds(graph.dependencies(task), states0);
                let deps = graph.dependencies(task);
                let m = choose|m: int| 0 <= m < deps.len() && deps[m] == dep as usize;
                assert(states0[deps[m] as int] == TaskState::Finished);
            }
        }
        started
    }

    /// One admission pass: admits every queued task that can run beside the
    /// running ones, as [`Self::admit_queued_systems`] does, and raises the
    /// start signal of each admitted task once.
    ///
    /// Returns the started tasks in the order in which they were started.
    pub fn start_all_runnable_queued_systems(&mut self) -> (started: Vec<usize>)
        requires
            old(self).wf(),
        ensures
            final(self).wf(),
            final(self).graph() == old(self).graph(),
            final(self).report_sender() == old(self).report_sender(),
            final(self).report_receiver() == old(self).report_receiver(),
            final(self).deps_now() == old(self).deps_now(),
            final(self).dependants_scratch() == old(self).dependants_scratch(),
            final(self).last_archetypes_generation() == old(self).last_archetypes_generation(),
            started@ == admitted(old(self).graph(), old(self).queued(), old(self).running()),
            final(self).running() == old(self).running() + started@,
            final(self).queued() == deferred(old(self).graph(), old(self).queued(), old(self).running()),
            final(self).states().len() == old(self).states().len(),
            forall|i: int|
                0 <= i < old(self).states().len() ==> #[trigger] final(self).states()[i] == (if started@.contains(
                    i as usize,
                ) {
                    TaskState::Admitted
                } else {
                    old(self).states()[i]
                }),
            forall|k: int| 0 <= k < started@.len() ==> (#[trigger] started@[k]) < old(self).graph().size(),
            forall|k: int|
                0 <= k < started@.len() ==> old(self).states()[#[trigger] started@[k] as int]
                    == TaskState::Ready,
            forall|k: int, dep: int|
                0 <= k < started@.len() && #[trigger] old(self).graph().depends_on(
                    #[trigger] started@[k] as int,
                    dep,
                ) ==> old(self).states()[dep] == TaskState::Finished,
            steps_forward(old(self).states(), final(self).states()),
            old(self).running().len() == 0 && old(self).queued().len() > 0 ==> started@.len() > 0
                && started@[0] == old(self).queued()[0],
    {
        let started = self.admit_queued_systems();
        let mut k: usize = 0;
        while k < started.len()
            invariant
                self.wf(),
                k <= started@.len(),
                forall|j: int| 0 <= j < started@.len() ==> (#[trigger] started@[j]) < self.graph.size(),
            decreases started@.len() - k,
        {
            notify_one(&self.graph.container(started[k]).notifier);
            k += 1;
        }
        started
    }

    /// Records that task `id` has finished. The task leaves the running
    /// tasks, and each of its dependants is noted for the next update of the
    /// counters.
    pub fn process_finished_system(&mut self, id: usize)
        requires
            old(self).wf(),
            id < old(self).graph().size(),
            old(self).states()[id as int] == TaskState::Admitted,
        ensures
            final(self).wf(),
            final(self).graph() == old(self).graph(),
            final(self).report_sender() == old(self).report_sender(),
            final(self).report_receiver() == old(self).report_receiver(),
            final(self).deps_now() == old(self).deps_now(),
            final(self).queued() == old(self).queued(),
            final(self).last_archetypes_generation() == old(self).last_archetypes_generation(),
            final(self).states() == old(self).states().update(id as int, TaskState::Finished),
            final(self).running() == old(self).running().remove(old(self).running().index_of(id)),
            final(self).dependants_scratch() == old(self).dependants_scratch() + old(
                self,
            ).graph().dependants(id as int),
            steps_forward(old(self).states(), final(self).states()),
    {
        let ghost graph = self.graph;
        let ghost n = graph.size();
        let ghost running0 = self.running@;
        let ghost states0 = self.states@;
        let ghost scratch0 = self.dependants_scratch@;
        assert(running0.contains(id));
        let len = self.running.len();
        let mut p: usize = 0;
        while self.running[p] != id
            invariant
                self.running@ == running0,
                len == running0.len(),
                running0.contains(id),
                p < running0.len(),
                forall|j: int| 0 <= j < p ==> running0[j] != id,
            decreases running0.len() - p,
        {
            proof {
                let m = choose|m: int| 0 <= m < running0.len() && running0[m] == id;
                assert(m > p);
            }
            p += 1;
        }
        proof {
            let q = running0.index_of(id);
            assert(0 <= q < running0.len() && running0[q] == id);
            assert(q == p);
        }
        self.running.remove(p);
        self.states[id] = TaskState::Finished;
        let ghost running1 = self.running@;
        let ghost states1 = self.states@;
        proof {
            assert(running1 == running0.remove(p as int));
            assert(states1 == states0.update(id as int, TaskState::Finished));
            lemma_remove_distinct(running0, p as int);
            assert forall|a: int, b: int|
                0 <= a < running1.len() && 0 <= b < running1.len() && a != b implies graph.compatible(
                #[trigger] running1[a] as int,
                #[trigger] running1[b] as int,
            ) by {
                let a0 = if a < p { a } else { a + 1 };
                let b0 = if b < p { b } else { b + 1 };
                assert(running1[a] == running0[a0]);
                assert(running1[b] == running0[b0]);
                assert(graph.compatible(running0[a0] as int, running0[b0] as int));
            }
            assert forall|j: int| 0 <= j < running1.len() implies (#[trigger] running1[j]) < n by {
                let j0 = if j < p { j } else { j + 1 };
                assert(running1[j] == running0[j0]);
            }
        }
        let count = self.graph.container(id).dependants.len();
        let mut k: usize = 0;
        while k < count
            invariant
                old(self).wf(),
                graph == old(self).graph,
                n == graph.size(),
                id < n,
                self.graph == graph,
                self.sender == old(self).sender,
                self.receiver == old(self).receiver,
                self.running@ == running1,
                self.states@ == states1,
                self.deps_now@ == old(self).deps_now@,
                self.queued@ == old(self).queued@,
                self.last_archetypes_generation == old(self).last_archetypes_generation,
                count == graph.dependants(id as int).len(),
                k <= count,
                self.dependants_scratch@ == scratch0 + graph.dependants(id as int).take(k as int),
            decreases count - k,
        {
            let dependant = self.graph.container(id).dependants[k];
            self.dependants_scratch.push(dependant);
            k += 1;
            proof {
                let all = graph.dependants(id as int);
                assert(all.take(k as int) =~= all.take(k - 1).push(dependant));
                assert(self.dependants_scratch@ =~= scratch0 + all.take(k as int));
            }
        }
        proof {
            let all = graph.dependants(id as int);
            assert(all.take(count as int) =~= all);
            let scratch1 = self.dependants_scratch@;
            assert(scratch1 == scratch0 + all);
            assert forall|j: int| 0 <= j < scratch1.len() implies (#[trigger] scratch1[j]) < n by {
                if j >= scratch0.len() {
                    assert(scratch1[j] == all[j - scratch0.len()]);
                }
            }
            assert forall|i: int| 0 <= i < n implies #[trigger] self.deps_now@[i] == unfinished(
                graph.dependencies(i),
                states1,
            ) + occurrences(scratch1, i as usize) by {
                let deps = graph.dependencies(i);
                assert(graph.containers()[i].deps_total == deps.len());
                lemma_unfinished_finish(deps, states0, id);
                lemma_occurrences_concat(scratch0, all, i as usize);
                lemma_occurrences_distinct(all, i as usize);
                assert(graph.containers()[id as int].deps_total == graph.dependencies(id as int).len());
                assert(all.contains(i as usize) <==> graph.depends_on(i, id as int));
                assert(old(self).deps_now@[i] == unfinished(deps, states0) + occurrences(
                    scratch0,
                    i as usize,
                ));
            }
            assert forall|i: int| 0 <= i < n implies (#[trigger] states1[i] == TaskState::Blocked
                <==> self.deps_now@[i] > 0) by {
                assert(states0[i] == TaskState::Blocked <==> old(self).deps_now@[i] > 0);
            }
            assert forall|i: int| 0 <= i < n implies (self.queued@.contains(i as usize)
                <==> #[trigger] states1[i] == TaskState::Ready) by {
                assert(old(self).queued@.contains(i as usize) <==> states0[i] == TaskState::Ready);
            }
            assert forall|i: int| 0 <= i < n implies (running1.contains(i as usize)
                <==> #[trigger] states1[i] == TaskState::Admitted) by {
                assert(running0.contains(i as usize) <==> states0[i] == TaskState::Admitted);
            }
        }
    }

    /// Deals with what one attempt to take a report from the channel gave.
    /// A report that names a running task records that task as finished, as
    /// [`Self::process_finished_system`] does. A report that names no running
    /// task changes nothing, and neither does the lack of a report.
    pub fn process_report(&mut self, report: Result<usize, TryRecvError>) -> (outcome: Report)
        requires
            old(self).wf(),
        ensures
            final(self).wf(),
            final(self).graph() == old(self).graph(),
            final(self).report_sender() == old(self).report_sender(),
            final(self).report_receiver() == old(self).report_receiver(),
            final(self).deps_now() == old(self).deps_now(),
            final(self).queued() == old(self).queued(),
            final(self).last_archetypes_generation() == old(self).last_archetypes_generation(),
            match report {
                Ok(id) => if id < old(self).states().len() && old(self).states()[id as int]
                    == TaskState::Admitted {
                    &&& outcome == Report::Finished(id)
                    &&& final(self).states() == old(self).states().update(id as int, TaskState::Finished)
                    &&& final(self).running() == old(self).running().remove(
                        old(self).running().index_of(id),
                    )
                    &&& final(self).dependants_scratch() == old(self).dependants_scratch() + old(
                        self,
                    ).graph().dependants(id as int)
                } else {
                    &&& outcome == Report::Stray(id)
                    &&& final(self).states() == old(self).states()
                    &&& final(self).running() == old(self).running()
                    &&& final(self).dependants_scratch() == old(self).dependants_scratch()
                },
                Err(_) => {
                    &&& outcome == Report::Nothing
                    &&& final(self).states() == old(self).states()
                    &&& final(self).running() == old(self).running()
                    &&& final(self).dependants_scratch() == old(self).dependants_scratch()
                },
            },
    {
        match report {
            Ok(id) => {
                if id < self.states.len() && self.states[id] == TaskState::Admitted {
                    self.process_finished_system(id);
                    Report::Finished(id)
                } else {
                    Report::Stray(id)
                }
            },
            Err(_) => Report::Nothing,
        }
    }

    /// Takes the reports that are on the channel now, without waiting, and
    /// records each reported task as finished, as
    /// [`Self::process_finished_system`] does. The pass ends when the channel
    /// has no report, when no task is running any more, or at a report that
    /// names no running task. While nothing is running the channel is not
    /// looked at.
    ///
    /// Every task that the pass records was running before the pass, and
    /// none is recorded twice: the running tasks afterwards are those from
    /// before without the recorded ones.
    pub fn process_finished_systems(&mut self) -> (drained: Drained)
        requires
            old(self).wf(),
        ensures
            final(self).wf(),
            final(self).graph() == old(self).graph(),
            final(self).report_sender() == old(self).report_sender(),
            final(self).report_receiver() == old(self).report_receiver(),
            final(self).deps_now() == old(self).deps_now(),
            final(self).queued() == old(self).queued(),
            final(self).last_archetypes_generation() == old(self).last_archetypes_generation(),
            final(self).states() == states_after(old(self).states(), drained.finished@),
            final(self).running() == running_after(old(self).running(), drained.finished@),
            final(self).dependants_scratch() == scratch_after(
                old(self).graph(),
                old(self).dependants_scratch(),
                drained.finished@,
            ),
            forall|k: int|
                0 <= k < drained.finished@.len() ==> (#[trigger] drained.finished@[k]) < old(
                    self,
                ).graph().size() && old(self).states()[drained.finished@[k] as int] == TaskState::Admitted,
            steps_forward(old(self).states(), final(self).states()),
            drained.finished@.no_duplicates(),
            forall|k: int|
                0 <= k < drained.finished@.len() ==> old(self).running().contains(
                    #[trigger] drained.finished@[k],
                ),
            forall|id: usize|
                #![trigger final(self).running().contains(id)]
                #![trigger old(self).running().contains(id)]
                final(self).running().contains(id) <==> old(self).running().contains(id)
                    && !drained.finished@.contains(id),
            final(self).running().len() + drained.finished@.len() == old(self).running().len(),
            forall|i: int|
                0 <= i < old(self).states().len() ==> #[trigger] final(self).states()[i] == (
                if drained.finished@.contains(i as usize) {
                    TaskState::Finished
                } else {
                    old(self).states()[i]
                }),
            old(self).running().len() == 0 ==> drained.finished@.len() == 0 && drained.stray is None,
            match drained.stray {
                Some(id) => {
                    &&& final(self).running().len() > 0
                    &&& !(id < final(self).states().len() && final(self).states()[id as int]
                        == TaskState::Admitted)
                },
                None => true,
            },
    {
        let mut finished: Vec<usize> = Vec::new();
        let ghost n = self.graph.size();
        while self.running.len() > 0
            invariant
                self.wf(),
                old(self).wf(),
                n == old(self).graph.size(),
                self.graph == old(self).graph,
                self.sender == old(self).sender,
                self.receiver == old(self).receiver,
                self.deps_now@ == old(self).deps_now@,
                self.queued@ == old(self).queued@,
                self.last_archetypes_generation == old(self).last_archetypes_generation,
                self.states@ == states_after(old(self).states@, finished@),
                self.running@ == running_after(old(self).running@, finished@),
                self.dependants_scratch@ == scratch_after(
                    old(self).graph,
                    old(self).dependants_scratch@,
                    finished@,
                ),
                self.states@.len() == old(self).states@.len(),
                forall|k: int|
                    0 <= k < finished@.len() ==> (#[trigger] finished@[k]) < n && old(
                        self,
                    ).states@[finished@[k] as int] == TaskState::Admitted,
                finished@.no_duplicates(),
                forall|id: usize|
                    #![trigger self.running@.contains(id)]
                    #![trigger old(self).running@.contains(id)]
                    self.running@.contains(id) <==> old(self).running@.contains(id) && !finished@.contains(
                        id,
                    ),
                self.running@.len() + finished@.len() == old(self).running@.len(),
                forall|i: int|
                    0 <= i < n ==> #[trigger] self.states@[i] == (if finished@.contains(i as usize) {
                        TaskState::Finished
                    } else {
                        old(self).states@[i]
                    }),
            decreases self.running@.len(),
        {
            let ghost before = finished@;
            let ghost running_before = self.running@;
            let ghost states_before = self.states@;
            let report = try_recv(&self.receiver);
            match self.process_report(report) {
                Report::Finished(id) => {
                    finished.push(id);
                    proof {
                        assert(finished@.drop_last() =~= before);
                        assert(finished@.last() == id);
                        assert(states_before[id as int] == TaskState::Admitted);
                        assert(running_before.contains(id));
                        let at = running_before.index_of(id);
                        assert(0 <= at < running_before.len() && running_before[at] == id);
                        lemma_remove_distinct(running_before, at);
                        // The task ran until now, so it was not recorded before.
                        assert(!before.contains(id));
                        lemma_push_distinct(before, id);
                        assert forall|i: int| 0 <= i < n implies #[trigger] self.states@[i] == (
                        if finished@.contains(i as usize) {
                            TaskState::Finished
                        } else {
                            old(self).states@[i]
                        }) by {
                            assert(states_before[i] == (if before.contains(i as usize) {
                                TaskState::Finished
                            } else {
                                old(self).states@[i]
                            }));
                        }
                    }
                },
                Report::Stray(id) => {
                    assert(self.running@ == running_before);
                    assert(self.states@ == states_before);
                    return Drained { finished, stray: Some(id) };
                },
                Report::Nothing => {
                    assert(self.running@ == running_before);
                    assert(self.states@ == states_before);
                    return Drained { finished, stray: None };
                },
            }
        }
        Drained { finished, stray: None }
    }

    /// Applies the collected notifications, oldest first. Each one lowers the
    /// counter of the task it names by one; a task whose counter reaches zero
    /// becomes ready and joins the end of the queue.
    pub fn update_counters_and_queue_systems(&mut self)
        requires
            old(self).wf(),
        ensures
            final(self).wf(),
            final(self).graph() == old(self).graph(),
            final(self).report_sender() == old(self).report_sender(),
            final(self).report_receiver() == old(self).report_receiver(),
            final(self).running() == old(self).running(),
            final(self).last_archetypes_generation() == old(self).last_archetypes_generation(),
            final(self).dependants_scratch() == Seq::<usize>::empty(),
            final(self).deps_now().len() == old(self).deps_now().len(),
            forall|i: int|
                0 <= i < old(self).deps_now().len() ==> #[trigger] final(self).deps_now()[i] == old(
                    self,
                ).deps_now()[i] - occurrences(old(self).dependants_scratch(), i as usize),
            final(self).queued() == old(self).queued() + released(
                old(self).dependants_scratch(),
                old(self).deps_now(),
            ),
            final(self).states().len() == old(self).states().len(),
            forall|i: int|
                0 <= i < old(self).states().len() ==> #[trigger] final(self).states()[i] == (if old(
                    self,
                ).states()[i] == TaskState::Blocked && final(self).deps_now()[i] == 0 {
                    TaskState::Ready
                } else {
                    old(self).states()[i]
                }),
            steps_forward(old(self).states(), final(self).states()),
    {
        let ghost graph = self.graph;
        let ghost n = graph.size();
        let ghost scratch0 = self.dependants_scratch@;
        let ghost counters0 = self.deps_now@;
        let ghost states0 = self.states@;
        let ghost queued0 = self.queued@;
        let mut k: usize = 0;
        proof {
            assert(scratch0.take(0) =~= Seq::<usize>::empty());
            assert(queued0 + released(scratch0.take(0), counters0) =~= queued0);
        }
        while k < self.dependants_scratch.len()
            invariant
                old(self).wf(),
                graph == old(self).graph,
                n == graph.size(),
                scratch0 == old(self).dependants_scratch@,
                counters0 == old(self).deps_now@,
                states0 == old(self).states@,
                queued0 == old(self).queued@,
                self.graph == graph,
                self.sender == old(self).sender,
                self.receiver == old(self).receiver,
                self.running@ == old(self).running@,
                self.last_archetypes_generation == old(self).last_archetypes_generation,
                self.dependants_scratch@ == scratch0,
                k <= scratch0.len(),
                self.deps_now@.len() == n,
                self.states@.len() == n,
                forall|i: int|
                    0 <= i < n ==> #[trigger] self.deps_now@[i] == counters0[i] - occurrences(
                        scratch0.take(k as int),
                        i as usize,
                    ),
                self.queued@ == queued0 + released(scratch0.take(k as int), counters0),
                forall|i: int|
                    0 <= i < n ==> #[trigger] self.states@[i] == (if states0[i] == TaskState::Blocked
                        && self.deps_now@[i] == 0 {
                        TaskState::Ready
                    } else {
                        states0[i]
                    }),
                self.queued@.no_duplicates(),
                forall|j: int| 0 <= j < self.queued@.len() ==> (#[trigger] self.queued@[j]) < n,
                forall|i: int|
                    0 <= i < n ==> (self.queued@.contains(i as usize) <==> #[trigger] self.states@[i]
                        == TaskState::Ready),
            decreases scratch0.len() - k,
        {
            let id = self.dependants_scratch[k];
            let ghost prefix = scratch0.take(k as int);
            let ghost next = scratch0.take(k + 1);
            let ghost queued_before = self.queued@;
            let ghost counters_before = self.deps_now@;
            let ghost states_before = self.states@;
            proof {
                assert(next =~= prefix.push(id));
                assert(next.drop_last() =~= prefix);
                assert(next.last() == id);
                assert(id < n);
                lemma_occurrences_push(prefix, id, id);
                lemma_occurrences_take(scratch0, k + 1, id);
                assert(counters0[id as int] == unfinished(graph.dependencies(id as int), states0)
                    + occurrences(scratch0, id));
                assert(counters_before[id as int] == counters0[id as int] - occurrences(prefix, id));
                assert(counters_before[id as int] >= 1);
                assert(states0[id as int] == TaskState::Blocked);
                assert(states_before[id as int] == TaskState::Blocked);
                assert(!queued_before.contains(id));
            }
            let now = self.deps_now[id] - 1;
            self.deps_now[id] = now;
            if now == 0 {
                self.states[id] = TaskState::Ready;
                self.queued.push(id);
                proof {
                    assert(self.queued@ == queued_before.push(id));
                    assert(self.queued@[queued_before.len() as int] == id);
                    assert(released(next, counters0) == released(prefix, counters0).push(id));
                    assert(self.queued@ =~= queued0 + released(next, counters0));
                    lemma_push_distinct(queued_before, id);
                }
            } else {
                proof {
                    assert(released(next, counters0) == released(prefix, counters0));
                }
            }
            proof {
                assert forall|i: int| 0 <= i < n implies #[trigger] self.deps_now@[i] == counters0[i]
                    - occurrences(next, i as usize) by {
                    lemma_occurrences_push(prefix, id, i as usize);
                    assert(counters_before[i] == counters0[i] - occurrences(prefix, i as usize));
                }
                assert forall|i: int| 0 <= i < n implies (self.queued@.contains(i as usize)
                    <==> #[trigger] self.states@[i] == TaskState::Ready) by {
                    assert(queued_before.contains(i as usize) <==> states_before[i] == TaskState::Ready);
                }
                assert forall|i: int| 0 <= i < n implies #[trigger] self.states@[i] == (if states0[i]
                    == TaskState::Blocked && self.deps_now@[i] == 0 {
                    TaskState::Ready
                } else {
                    states0[i]
                }) by {
                    assert(states_before[i] == (if states0[i] == TaskState::Blocked && counters_before[i]
                        == 0 {
                        TaskState::Ready
                    } else {
                        states0[i]
                    }));
                }
            }
            k += 1;
        }
        self.dependants_scratch.clear();
        proof {
            assert(scratch0.take(scratch0.len() as int) =~= scratch0);
            assert forall|i: int| 0 <= i < n implies #[trigger] self.deps_now@[i] == unfinished(
                graph.dependencies(i),
                self.states@,
            ) + occurrences(self.dependants_scratch@, i as usize) by {
                let deps = graph.dependencies(i);
                assert forall|d: int| 0 <= d < deps.len() implies (states0[#[trigger] deps[d] as int]
                    == TaskState::Finished) == (self.states@[deps[d] as int] == TaskState::Finished) by {
                    assert(deps[d] < n);
                    let t = deps[d] as int;
                    assert(self.states@[t] == (if states0[t] == TaskState::Blocked && self.deps_now@[t]
                        == 0 {
                        TaskState::Ready
                    } else {
                        states0[t]
                    }));
                }
                lemma_unfinished_congruent(deps, states0, self.states@);
                assert(counters0[i] == unfinished(deps, states0) + occurrences(scratch0, i as usize));
            }
            assert forall|i: int| 0 <= i < n implies (#[trigger] self.states@[i] == TaskState::Blocked
                <==> self.deps_now@[i] > 0) by {
                assert(states0[i] == TaskState::Blocked <==> counters0[i] > 0);
                assert(self.deps_now@[i] == counters0[i] - occurrences(scratch0, i as usize));
            }
            assert forall|i: int| 0 <= i < n implies (self.running@.contains(i as usize)
                <==> #[trigger] self.states@[i] == TaskState::Admitted) by {
                assert(old(self).running@.contains(i as usize) <==> states0[i] == TaskState::Admitted);
            }
        }
    }
}

} // verus!
