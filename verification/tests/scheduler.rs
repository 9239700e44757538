use async_channel::TryRecvError;
use bevy_prototype_scheduler::{
    AccessMode, AccessSet, Report, SchedulerBuilder, SchedulerGraph, TaskState,
    UnorderedSchedulerSystem,
};
use std::time::Duration;

fn access(entries: &[(u64, AccessMode)]) -> AccessSet {
    let mut set = AccessSet::new();
    for (resource, mode) in entries {
        set.insert(*resource, *mode);
    }
    set
}

/// Builds a graph from `(name, resource accesses, dependencies)`.
fn graph_of(tasks: &[(&str, &[(u64, AccessMode)], &[&str])]) -> SchedulerGraph<()> {
    let mut builder = SchedulerBuilder::new();
    for (name, entries, _) in tasks {
        builder
            .add_task(name.to_string(), access(entries), AccessSet::new(), ())
            .unwrap();
    }
    for (name, _, dependencies) in tasks {
        for dependency in dependencies.iter() {
            builder.add_dependency(name.to_string(), dependency.to_string());
        }
    }
    match builder.build() {
        Ok(graph) => graph,
        Err(error) => panic!("no graph: {:?}", error),
    }
}

fn states(scheduler: &UnorderedSchedulerSystem<()>) -> Vec<TaskState> {
    (0..scheduler.system_graph().len())
        .map(|id| scheduler.task_state(id))
        .collect()
}

fn counters(scheduler: &UnorderedSchedulerSystem<()>) -> Vec<usize> {
    (0..scheduler.system_graph().len())
        .map(|id| scheduler.remaining_dependencies(id))
        .collect()
}

fn finish(scheduler: &mut UnorderedSchedulerSystem<()>, id: usize) {
    assert_eq!(scheduler.task_state(id), TaskState::Admitted);
    scheduler.process_finished_system(id);
}

/// Runs to completion, finishing the running tasks one at a time, oldest
/// first. Checks after every admission pass that the running tasks are
/// pairwise compatible and that everything a started task waits for has
/// finished. Returns the tasks in the order in which they finished.
fn run_one_by_one(scheduler: &mut UnorderedSchedulerSystem<()>, generation: u64) -> Vec<usize> {
    let mut finished = Vec::new();
    scheduler.prepare(generation);
    while !scheduler.is_complete() {
        let started = scheduler.start_all_runnable_queued_systems();
        for id in &started {
            for dependency in &scheduler.system_graph().container(*id).dependencies {
                assert!(finished.contains(dependency));
            }
        }
        let running = scheduler.running_systems().clone();
        assert!(!running.is_empty());
        for a in &running {
            for b in &running {
                if a != b {
                    assert!(scheduler.system_graph().is_compatible(*a, *b));
                }
            }
        }
        let next = running[0];
        finish(scheduler, next);
        finished.push(next);
        scheduler.update_counters_and_queue_systems();
    }
    finished
}

const R: AccessMode = AccessMode::Read;
const W: AccessMode = AccessMode::Write;

#[test]
fn new_scheduler_is_at_rest() {
    let scheduler = UnorderedSchedulerSystem::new(graph_of(&[("A", &[], &[]), ("B", &[], &["A"])]));
    assert!(scheduler.is_complete());
    assert_eq!(states(&scheduler), vec![TaskState::Finished, TaskState::Finished]);
    assert_eq!(counters(&scheduler), vec![0, 0]);
    assert!(scheduler.queued_systems().is_empty());
    assert!(scheduler.running_systems().is_empty());
}

#[test]
fn prepare_resets_counters_and_queues_roots_in_registration_order() {
    let mut scheduler = UnorderedSchedulerSystem::new(graph_of(&[
        ("A", &[], &[]),
        ("B", &[], &["A", "C"]),
        ("C", &[], &[]),
        ("D", &[], &["B"]),
    ]));
    scheduler.prepare(0);
    assert_eq!(
        states(&scheduler),
        vec![
            TaskState::Ready,
            TaskState::Blocked,
            TaskState::Ready,
            TaskState::Blocked
        ]
    );
    assert_eq!(counters(&scheduler), vec![0, 2, 0, 1]);
    assert_eq!(scheduler.queued_systems(), &vec![0, 2]);
    assert!(scheduler.running_systems().is_empty());
    assert!(!scheduler.is_complete());
}

#[test]
fn prepare_reports_stale_access_when_generation_changes() {
    let mut scheduler = UnorderedSchedulerSystem::new(graph_of(&[("A", &[], &[])]));
    assert!(scheduler.prepare(5));
    assert!(!scheduler.prepare(5));
    assert!(scheduler.prepare(6));
    assert!(!scheduler.prepare(6));
    assert!(scheduler.prepare(5));
}

#[test]
fn independent_tasks_start_together_and_dependant_waits_for_both() {
    let mut scheduler = UnorderedSchedulerSystem::new(graph_of(&[
        ("A", &[(1, W)], &[]),
        ("B", &[(2, W)], &[]),
        ("C", &[(1, R), (2, R)], &["A", "B"]),
    ]));
    scheduler.prepare(0);
    assert_eq!(scheduler.start_all_runnable_queued_systems(), vec![0, 1]);
    assert_eq!(scheduler.running_systems(), &vec![0, 1]);
    assert_eq!(scheduler.task_state(2), TaskState::Blocked);

    finish(&mut scheduler, 0);
    scheduler.update_counters_and_queue_systems();
    assert_eq!(scheduler.remaining_dependencies(2), 1);
    assert_eq!(scheduler.task_state(2), TaskState::Blocked);
    assert_eq!(scheduler.start_all_runnable_queued_systems(), Vec::<usize>::new());
    assert_eq!(scheduler.running_systems(), &vec![1]);

    finish(&mut scheduler, 1);
    scheduler.update_counters_and_queue_systems();
    assert_eq!(scheduler.remaining_dependencies(2), 0);
    assert_eq!(scheduler.task_state(2), TaskState::Ready);
    assert_eq!(scheduler.queued_systems(), &vec![2]);
    assert_eq!(scheduler.start_all_runnable_queued_systems(), vec![2]);
    assert_eq!(scheduler.task_state(2), TaskState::Admitted);

    finish(&mut scheduler, 2);
    scheduler.update_counters_and_queue_systems();
    assert!(scheduler.is_complete());
    assert_eq!(
        states(&scheduler),
        vec![TaskState::Finished, TaskState::Finished, TaskState::Finished]
    );
}

#[test]
fn both_dependencies_finishing_in_one_batch_release_dependant_once() {
    let mut scheduler = UnorderedSchedulerSystem::new(graph_of(&[
        ("A", &[], &[]),
        ("B", &[], &[]),
        ("C", &[], &["A", "B"]),
    ]));
    scheduler.prepare(0);
    assert_eq!(scheduler.start_all_runnable_queued_systems(), vec![0, 1]);
    finish(&mut scheduler, 1);
    finish(&mut scheduler, 0);
    assert!(!scheduler.is_complete());
    assert_eq!(scheduler.remaining_dependencies(2), 2);
    scheduler.update_counters_and_queue_systems();
    assert_eq!(scheduler.remaining_dependencies(2), 0);
    assert_eq!(scheduler.queued_systems(), &vec![2]);
    assert!(scheduler.running_systems().is_empty());
}

#[test]
fn conflicting_writers_never_run_together() {
    let mut scheduler = UnorderedSchedulerSystem::new(graph_of(&[
        ("first", &[(1, W)], &[]),
        ("second", &[(1, W)], &[]),
    ]));
    scheduler.prepare(0);
    assert!(scheduler.can_start_now(0));
    assert!(scheduler.can_start_now(1));
    assert_eq!(scheduler.start_all_runnable_queued_systems(), vec![0]);
    assert_eq!(scheduler.running_systems(), &vec![0]);
    assert_eq!(scheduler.queued_systems(), &vec![1]);
    assert_eq!(scheduler.task_state(1), TaskState::Ready);
    assert!(!scheduler.can_start_now(1));

    // Another pass while the first writer runs changes nothing.
    assert_eq!(scheduler.start_all_runnable_queued_systems(), Vec::<usize>::new());
    assert_eq!(scheduler.queued_systems(), &vec![1]);

    finish(&mut scheduler, 0);
    scheduler.update_counters_and_queue_systems();
    assert!(!scheduler.is_complete());
    assert!(scheduler.can_start_now(1));
    assert_eq!(scheduler.start_all_runnable_queued_systems(), vec![1]);
    assert_eq!(scheduler.running_systems(), &vec![1]);
    finish(&mut scheduler, 1);
    scheduler.update_counters_and_queue_systems();
    assert!(scheduler.is_complete());
}

#[test]
fn reader_and_writer_of_one_resource_are_kept_apart() {
    let mut scheduler = UnorderedSchedulerSystem::new(graph_of(&[
        ("reader", &[(1, R)], &[]),
        ("writer", &[(1, W)], &[]),
        ("other reader", &[(1, R)], &[]),
    ]));
    scheduler.prepare(0);
    // The writer is deferred, the second reader joins the first.
    assert_eq!(scheduler.start_all_runnable_queued_systems(), vec![0, 2]);
    assert_eq!(scheduler.queued_systems(), &vec![1]);
    finish(&mut scheduler, 0);
    scheduler.update_counters_and_queue_systems();
    assert_eq!(scheduler.start_all_runnable_queued_systems(), Vec::<usize>::new());
    finish(&mut scheduler, 2);
    scheduler.update_counters_and_queue_systems();
    assert_eq!(scheduler.start_all_runnable_queued_systems(), vec![1]);
}

#[test]
fn a_started_task_blocks_later_conflicting_tasks_of_the_same_pass() {
    let mut scheduler = UnorderedSchedulerSystem::new(graph_of(&[
        ("A", &[(1, W)], &[]),
        ("B", &[(1, R), (2, W)], &[]),
        ("C", &[(2, R)], &[]),
    ]));
    scheduler.prepare(0);
    // B conflicts with A and stays queued, so C does not meet B.
    assert_eq!(scheduler.start_all_runnable_queued_systems(), vec![0, 2]);
    assert_eq!(scheduler.queued_systems(), &vec![1]);
}

#[test]
fn archetype_access_is_checked_as_well() {
    let mut builder = SchedulerBuilder::new();
    builder
        .add_task("A".to_string(), access(&[(1, R)]), access(&[(5, W)]), ())
        .unwrap();
    builder
        .add_task("B".to_string(), access(&[(1, R)]), access(&[(5, R)]), ())
        .unwrap();
    let graph = builder.build().unwrap_or_else(|error| panic!("{:?}", error));
    assert!(!graph.is_compatible(0, 1));
    let mut scheduler = UnorderedSchedulerSystem::new(graph);
    scheduler.prepare(0);
    assert_eq!(scheduler.start_all_runnable_queued_systems(), vec![0]);
}

#[test]
fn every_task_of_an_acyclic_graph_finishes_exactly_once() {
    let mut scheduler = UnorderedSchedulerSystem::new(graph_of(&[
        ("load", &[(1, W)], &[]),
        ("physics", &[(1, R), (2, W)], &["load"]),
        ("audio", &[(1, R), (3, W)], &["load"]),
        ("render", &[(2, R), (3, R)], &["physics", "audio"]),
        ("log", &[(1, W)], &[]),
    ]));
    let finished = run_one_by_one(&mut scheduler, 0);
    let mut sorted = finished.clone();
    sorted.sort();
    assert_eq!(sorted, vec![0, 1, 2, 3, 4]);
    assert!(scheduler.queued_systems().is_empty());
    assert!(scheduler.running_systems().is_empty());
    assert_eq!(states(&scheduler), vec![TaskState::Finished; 5]);
    assert_eq!(counters(&scheduler), vec![0; 5]);
}

#[test]
fn dependency_finishes_before_dependant_starts_across_runs() {
    let mut scheduler = UnorderedSchedulerSystem::new(graph_of(&[
        ("C", &[], &["B"]),
        ("B", &[], &["A"]),
        ("A", &[], &[]),
    ]));
    for generation in 0..3 {
        let finished = run_one_by_one(&mut scheduler, generation);
        assert_eq!(finished, vec![2, 1, 0]);
    }
}

#[test]
fn second_run_finishes_the_same_tasks() {
    let mut scheduler = UnorderedSchedulerSystem::new(graph_of(&[
        ("A", &[(1, W)], &[]),
        ("B", &[(1, W)], &[]),
        ("C", &[], &["A", "B"]),
    ]));
    let first = run_one_by_one(&mut scheduler, 0);
    assert_eq!(counters(&scheduler), vec![0, 0, 0]);
    scheduler.prepare(0);
    assert_eq!(counters(&scheduler), vec![0, 0, 2]);
    let second = run_one_by_one(&mut scheduler, 0);
    let mut first_sorted = first.clone();
    first_sorted.sort();
    let mut second_sorted = second.clone();
    second_sorted.sort();
    assert_eq!(first_sorted, vec![0, 1, 2]);
    assert_eq!(first_sorted, second_sorted);
    assert_eq!(first, second);
}

#[test]
fn prepare_discards_an_unfinished_run() {
    let mut scheduler = UnorderedSchedulerSystem::new(graph_of(&[
        ("A", &[], &[]),
        ("B", &[], &["A"]),
    ]));
    scheduler.prepare(0);
    assert_eq!(scheduler.start_all_runnable_queued_systems(), vec![0]);
    finish(&mut scheduler, 0);
    scheduler.prepare(0);
    assert_eq!(states(&scheduler), vec![TaskState::Ready, TaskState::Blocked]);
    assert_eq!(counters(&scheduler), vec![0, 1]);
    assert_eq!(scheduler.queued_systems(), &vec![0]);
    assert!(scheduler.running_systems().is_empty());
}

#[test]
fn released_tasks_join_the_queue_behind_deferred_ones() {
    let mut scheduler = UnorderedSchedulerSystem::new(graph_of(&[
        ("A", &[(1, W)], &[]),
        ("B", &[(1, W)], &[]),
        ("C", &[(1, W)], &["A"]),
    ]));
    scheduler.prepare(0);
    assert_eq!(scheduler.start_all_runnable_queued_systems(), vec![0]);
    finish(&mut scheduler, 0);
    scheduler.update_counters_and_queue_systems();
    assert_eq!(scheduler.queued_systems(), &vec![1, 2]);
    assert_eq!(scheduler.start_all_runnable_queued_systems(), vec![1]);
    assert_eq!(scheduler.queued_systems(), &vec![2]);
}

#[test]
fn updated_access_decides_later_admission() {
    let mut scheduler = UnorderedSchedulerSystem::new(graph_of(&[
        ("A", &[(1, W)], &[]),
        ("B", &[(1, W)], &[]),
    ]));
    assert!(scheduler.prepare(1));
    assert!(scheduler.running_systems().is_empty());
    scheduler.update_access(1, access(&[(2, W)]), AccessSet::new());
    assert_eq!(scheduler.start_all_runnable_queued_systems(), vec![0, 1]);
}

#[test]
fn graph_comes_back_from_the_scheduler() {
    let mut scheduler = UnorderedSchedulerSystem::new(graph_of(&[
        ("A", &[(1, W)], &[]),
        ("B", &[(1, R)], &["A"]),
    ]));
    scheduler.prepare(0);
    let graph = scheduler.into_graph();
    assert_eq!(graph.len(), 2);
    assert_eq!(graph.container(1).dependencies, vec![0]);
    assert!(!graph.is_compatible(0, 1));
}

#[test]
fn can_start_now_compares_with_every_running_task() {
    let mut scheduler = UnorderedSchedulerSystem::new(graph_of(&[
        ("A", &[(1, R)], &[]),
        ("B", &[(2, R)], &[]),
        ("C", &[(2, W)], &[]),
        ("D", &[(3, W)], &[]),
    ]));
    scheduler.prepare(0);
    assert_eq!(scheduler.start_all_runnable_queued_systems(), vec![0, 1, 3]);
    assert!(!scheduler.can_start_now(2));
    finish(&mut scheduler, 1);
    assert!(scheduler.can_start_now(2));
}

#[test]
fn start_signal_is_raised_for_started_tasks_only() {
    let mut scheduler = UnorderedSchedulerSystem::new(graph_of(&[
        ("first", &[(1, W)], &[]),
        ("second", &[(1, W)], &[]),
    ]));
    scheduler.prepare(0);
    let first = scheduler.system_graph().container(0).notifier.listen();
    let second = scheduler.system_graph().container(1).notifier.listen();
    assert_eq!(scheduler.start_all_runnable_queued_systems(), vec![0]);
    assert!(first.wait_timeout(Duration::from_secs(5)));
    assert!(!second.wait_timeout(Duration::from_millis(50)));

    finish(&mut scheduler, 0);
    scheduler.update_counters_and_queue_systems();
    let second = scheduler.system_graph().container(1).notifier.listen();
    assert_eq!(scheduler.start_all_runnable_queued_systems(), vec![1]);
    assert!(second.wait_timeout(Duration::from_secs(5)));
}

#[test]
fn admission_without_signals_wakes_nobody() {
    let mut scheduler = UnorderedSchedulerSystem::new(graph_of(&[("only", &[], &[])]));
    scheduler.prepare(0);
    let listener = scheduler.system_graph().container(0).notifier.listen();
    assert_eq!(scheduler.admit_queued_systems(), vec![0]);
    assert_eq!(scheduler.task_state(0), TaskState::Admitted);
    assert!(!listener.wait_timeout(Duration::from_millis(50)));
}

#[test]
fn reports_on_the_channel_are_processed_in_their_order() {
    let mut scheduler = UnorderedSchedulerSystem::new(graph_of(&[
        ("A", &[], &[]),
        ("B", &[], &[]),
        ("C", &[], &["A"]),
        ("D", &[], &["B", "A"]),
    ]));
    scheduler.prepare(0);
    assert_eq!(scheduler.start_all_runnable_queued_systems(), vec![0, 1]);
    scheduler.sender().try_send(1).unwrap();
    scheduler.sender().try_send(0).unwrap();
    let drained = scheduler.process_finished_systems();
    assert_eq!(drained.finished, vec![1, 0]);
    assert_eq!(drained.stray, None);
    assert_eq!(scheduler.task_state(0), TaskState::Finished);
    assert_eq!(scheduler.task_state(1), TaskState::Finished);
    assert!(scheduler.running_systems().is_empty());
    assert!(!scheduler.is_complete());
    scheduler.update_counters_and_queue_systems();
    // B finished first, so D heard of B before A released C and D.
    assert_eq!(scheduler.queued_systems(), &vec![2, 3]);
    assert_eq!(counters(&scheduler), vec![0, 0, 0, 0]);
}

#[test]
fn pass_over_an_empty_channel_finds_nothing() {
    let mut scheduler = UnorderedSchedulerSystem::new(graph_of(&[("A", &[], &[])]));
    scheduler.prepare(0);
    assert_eq!(scheduler.start_all_runnable_queued_systems(), vec![0]);
    let drained = scheduler.process_finished_systems();
    assert_eq!(drained.finished, Vec::<usize>::new());
    assert_eq!(drained.stray, None);
    assert_eq!(scheduler.task_state(0), TaskState::Admitted);
    assert_eq!(scheduler.running_systems(), &vec![0]);
}

#[test]
fn report_of_a_task_that_is_not_running_ends_the_pass() {
    let mut scheduler = UnorderedSchedulerSystem::new(graph_of(&[
        ("A", &[], &[]),
        ("B", &[], &["A"]),
    ]));
    scheduler.prepare(0);
    assert_eq!(scheduler.start_all_runnable_queued_systems(), vec![0]);
    scheduler.sender().try_send(1).unwrap();
    scheduler.sender().try_send(0).unwrap();
    let drained = scheduler.process_finished_systems();
    assert_eq!(drained.finished, Vec::<usize>::new());
    assert_eq!(drained.stray, Some(1));
    assert_eq!(states(&scheduler), vec![TaskState::Admitted, TaskState::Blocked]);

    // The report behind the stray one is still on the channel.
    let drained = scheduler.process_finished_systems();
    assert_eq!(drained.finished, vec![0]);
    assert_eq!(drained.stray, None);
    assert_eq!(states(&scheduler), vec![TaskState::Finished, TaskState::Blocked]);
}

#[test]
fn report_of_an_unknown_task_is_stray() {
    let mut scheduler = UnorderedSchedulerSystem::new(graph_of(&[("A", &[], &[])]));
    scheduler.prepare(0);
    assert_eq!(scheduler.start_all_runnable_queued_systems(), vec![0]);
    scheduler.sender().try_send(7).unwrap();
    let drained = scheduler.process_finished_systems();
    assert_eq!(drained.finished, Vec::<usize>::new());
    assert_eq!(drained.stray, Some(7));
    assert_eq!(scheduler.task_state(0), TaskState::Admitted);
}

#[test]
fn second_report_of_one_task_is_stray() {
    let mut scheduler = UnorderedSchedulerSystem::new(graph_of(&[
        ("A", &[], &[]),
        ("B", &[], &[]),
    ]));
    scheduler.prepare(0);
    assert_eq!(scheduler.start_all_runnable_queued_systems(), vec![0, 1]);
    scheduler.sender().try_send(0).unwrap();
    scheduler.sender().try_send(0).unwrap();
    let drained = scheduler.process_finished_systems();
    assert_eq!(drained.finished, vec![0]);
    assert_eq!(drained.stray, Some(0));
    assert_eq!(states(&scheduler), vec![TaskState::Finished, TaskState::Admitted]);
}

#[test]
fn report_of_a_running_task_records_it_as_finished() {
    let mut scheduler = UnorderedSchedulerSystem::new(graph_of(&[
        ("A", &[], &[]),
        ("B", &[], &[]),
        ("C", &[], &["B"]),
    ]));
    scheduler.prepare(0);
    assert_eq!(scheduler.start_all_runnable_queued_systems(), vec![0, 1]);
    assert_eq!(scheduler.process_report(Ok(1)), Report::Finished(1));
    assert_eq!(
        states(&scheduler),
        vec![TaskState::Admitted, TaskState::Finished, TaskState::Blocked]
    );
    assert_eq!(scheduler.running_systems(), &vec![0]);
    scheduler.update_counters_and_queue_systems();
    assert_eq!(scheduler.queued_systems(), &vec![2]);
}

#[test]
fn report_that_names_no_running_task_changes_nothing() {
    let mut scheduler = UnorderedSchedulerSystem::new(graph_of(&[
        ("A", &[], &[]),
        ("B", &[], &["A"]),
    ]));
    scheduler.prepare(0);
    assert_eq!(scheduler.process_report(Ok(0)), Report::Stray(0));
    assert_eq!(scheduler.start_all_runnable_queued_systems(), vec![0]);
    assert_eq!(scheduler.process_report(Ok(1)), Report::Stray(1));
    assert_eq!(scheduler.process_report(Ok(2)), Report::Stray(2));
    assert_eq!(states(&scheduler), vec![TaskState::Admitted, TaskState::Blocked]);
    assert_eq!(scheduler.running_systems(), &vec![0]);
    assert_eq!(scheduler.process_report(Ok(0)), Report::Finished(0));
    assert_eq!(scheduler.process_report(Ok(0)), Report::Stray(0));
    assert_eq!(states(&scheduler), vec![TaskState::Finished, TaskState::Blocked]);
}

#[test]
fn lack_of_a_report_changes_nothing() {
    let mut scheduler = UnorderedSchedulerSystem::new(graph_of(&[("A", &[], &[])]));
    scheduler.prepare(0);
    assert_eq!(scheduler.start_all_runnable_queued_systems(), vec![0]);
    assert_eq!(scheduler.process_report(Err(TryRecvError::Empty)), Report::Nothing);
    assert_eq!(scheduler.process_report(Err(TryRecvError::Closed)), Report::Nothing);
    assert_eq!(scheduler.task_state(0), TaskState::Admitted);
    assert_eq!(scheduler.running_systems(), &vec![0]);
    assert!(!scheduler.is_complete());
}

#[test]
fn pass_takes_the_recorded_tasks_out_of_the_running_ones() {
    let mut scheduler = UnorderedSchedulerSystem::new(graph_of(&[
        ("A", &[], &[]),
        ("B", &[], &[]),
        ("C", &[], &[]),
        ("D", &[], &[]),
    ]));
    scheduler.prepare(0);
    assert_eq!(scheduler.start_all_runnable_queued_systems(), vec![0, 1, 2, 3]);
    scheduler.sender().try_send(2).unwrap();
    scheduler.sender().try_send(0).unwrap();
    let drained = scheduler.process_finished_systems();
    assert_eq!(drained.finished, vec![2, 0]);
    assert_eq!(drained.stray, None);
    assert_eq!(scheduler.running_systems(), &vec![1, 3]);
    assert_eq!(
        states(&scheduler),
        vec![
            TaskState::Finished,
            TaskState::Admitted,
            TaskState::Finished,
            TaskState::Admitted
        ]
    );
}

#[test]
fn pass_ends_when_the_last_running_task_is_recorded() {
    let mut scheduler = UnorderedSchedulerSystem::new(graph_of(&[
        ("A", &[], &[]),
        ("B", &[], &["A"]),
    ]));
    scheduler.prepare(0);
    assert_eq!(scheduler.start_all_runnable_queued_systems(), vec![0]);
    scheduler.sender().try_send(0).unwrap();
    scheduler.sender().try_send(1).unwrap();
    // Once A is recorded nothing runs, so the report behind it stays where it is.
    let drained = scheduler.process_finished_systems();
    assert_eq!(drained.finished, vec![0]);
    assert_eq!(drained.stray, None);
    assert!(scheduler.running_systems().is_empty());

    scheduler.update_counters_and_queue_systems();
    assert_eq!(scheduler.start_all_runnable_queued_systems(), vec![1]);
    let drained = scheduler.process_finished_systems();
    assert_eq!(drained.finished, vec![1]);
    assert_eq!(drained.stray, None);
    scheduler.update_counters_and_queue_systems();
    assert!(scheduler.is_complete());
}

#[test]
fn pass_while_nothing_runs_does_not_look_at_the_channel() {
    let mut scheduler = UnorderedSchedulerSystem::new(graph_of(&[("A", &[], &[])]));
    scheduler.prepare(0);
    scheduler.sender().try_send(5).unwrap();
    let drained = scheduler.process_finished_systems();
    assert_eq!(drained.finished, Vec::<usize>::new());
    assert_eq!(drained.stray, None);
    assert_eq!(scheduler.task_state(0), TaskState::Ready);

    assert_eq!(scheduler.start_all_runnable_queued_systems(), vec![0]);
    let drained = scheduler.process_finished_systems();
    assert_eq!(drained.finished, Vec::<usize>::new());
    assert_eq!(drained.stray, Some(5));
}
