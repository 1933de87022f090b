//! Scheduler core behaviour: dependency precedence, fail-fast, and the
//! concurrency bound, driven as the executor would drive them.

use neex::scheduler::{Scheduler, SchedulerTask, TaskStatus};

fn tasks_abc() -> Vec<SchedulerTask> {
    vec![
        SchedulerTask::new("A".to_string(), vec![]),
        SchedulerTask::new("B".to_string(), vec!["A".to_string()]),
        SchedulerTask::new("C".to_string(), vec!["A".to_string()]),
    ]
}

#[test]
fn dependents_wait_for_their_dependency() {
    let scheduler = Scheduler::new(4);
    let mut state = scheduler.plan(tasks_abc());

    // only A is ready at first: B and C must not start before A ends
    let ready = state.ready_tasks();
    assert_eq!(ready, vec![0]);

    assert!(state.can_dispatch());
    state.start_task(0);
    assert!(state.ready_tasks().is_empty());

    state.finish_task(0, true);
    let mut ready = state.ready_tasks();
    ready.sort();
    assert_eq!(ready, vec![1, 2]);

    // B and C may run at the same time under a bound of 4
    state.start_task(1);
    state.start_task(2);
    state.finish_task(1, true);
    state.finish_task(2, true);
    assert!(state.is_done());
    assert_eq!(state.task_status(0), TaskStatus::Completed);
    assert_eq!(state.task_status(1), TaskStatus::Completed);
    assert_eq!(state.task_status(2), TaskStatus::Completed);
}

#[test]
fn fail_fast_cancels_dependents() {
    let scheduler = Scheduler::new(4).fail_fast(true);
    let mut state = scheduler.plan(tasks_abc());

    state.start_task(0);
    state.finish_task(0, false);

    // after the failure nothing more is dispatched
    assert!(state.ready_tasks().is_empty());
    state.cancel_task(1);
    state.cancel_task(2);
    assert!(state.is_done());

    let statuses = vec![state.task_status(0), state.task_status(1), state.task_status(2)];
    assert_eq!(statuses.iter().filter(|s| **s == TaskStatus::Failed).count(), 1);
    assert_eq!(statuses.iter().filter(|s| **s == TaskStatus::Cancelled).count(), 2);
}

#[test]
fn without_fail_fast_independent_tasks_go_on() {
    let scheduler = Scheduler::new(2).fail_fast(false);
    let mut state = scheduler.plan(vec![
        SchedulerTask::new("A".to_string(), vec![]),
        SchedulerTask::new("B".to_string(), vec![]),
    ]);
    state.start_task(0);
    state.finish_task(0, false);
    // B is still offered
    assert_eq!(state.ready_tasks(), vec![1]);
}

#[test]
fn concurrency_bound_limits_dispatch() {
    let scheduler = Scheduler::new(3);
    let mut names: Vec<SchedulerTask> = Vec::new();
    for i in 0..10 {
        names.push(SchedulerTask::new(format!("Task{}", i), vec![]));
    }
    let mut state = scheduler.plan(names);

    let mut started = 0usize;
    let ready = state.ready_tasks();
    for &t in &ready {
        if state.can_dispatch() {
            state.start_task(t);
            started += 1;
        }
    }
    // the counting semaphore admits exactly three of the ten
    assert_eq!(started, 3, "Concurrency limit exceeded!");
    assert!(!state.can_dispatch());

    // a finished task frees one slot
    state.finish_task(ready[0], true);
    assert!(state.can_dispatch());
}

#[test]
fn unknown_dependencies_are_treated_as_met() {
    let scheduler = Scheduler::new(1);
    let mut state = scheduler.plan(vec![SchedulerTask::new(
        "A".to_string(),
        vec!["not-in-the-set".to_string()],
    )]);
    assert_eq!(state.ready_tasks(), vec![0]);
    state.start_task(0);
    state.finish_task(0, true);
    assert!(state.is_done());
}

#[test]
fn empty_plan_is_done_at_once() {
    let scheduler = Scheduler::new(4);
    let state = scheduler.plan(Vec::new());
    assert!(state.is_done());
    assert!(state.ready_tasks().is_empty());
}

#[test]
fn zero_parallelism_admits_nothing() {
    let scheduler = Scheduler::new(0);
    let state = scheduler.plan(vec![SchedulerTask::new("A".to_string(), vec![])]);
    assert!(!state.can_dispatch());
}
