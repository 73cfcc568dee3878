use std::cell::RefCell;
use std::rc::Rc;
use std::time::Duration;

use async_bottom_up::task::executor::Executor;
use async_bottom_up::task::wake::ResumeHandle;
use async_bottom_up::task::{Compute, ResumeOutcome, Task, TaskId};

/// Decrements once per resume, waking itself each time it suspends;
/// completes at zero, counting completions.
struct Countdown {
    remaining: u32,
    completions: Rc<RefCell<u32>>,
}

impl Compute for Countdown {
    fn resume(&mut self, handle: &ResumeHandle) -> ResumeOutcome {
        if self.remaining == 0 {
            *self.completions.borrow_mut() += 1;
            ResumeOutcome::Complete
        } else {
            self.remaining -= 1;
            assert!(handle.invoke());
            ResumeOutcome::Suspended
        }
    }
}

/// Completes immediately, recording its own label in a shared log.
struct Logger {
    label: u64,
    log: Rc<RefCell<Vec<u64>>>,
}

impl Compute for Logger {
    fn resume(&mut self, _handle: &ResumeHandle) -> ResumeOutcome {
        self.log.borrow_mut().push(self.label);
        ResumeOutcome::Complete
    }
}

/// Suspends forever without ever waking itself, counting its resumes.
struct Parker {
    resumes: Rc<RefCell<u32>>,
}

impl Compute for Parker {
    fn resume(&mut self, _handle: &ResumeHandle) -> ResumeOutcome {
        *self.resumes.borrow_mut() += 1;
        ResumeOutcome::Suspended
    }
}

/// Suspends forever without ever waking itself; carries no shared state, so
/// an executor of these can move across threads.
struct Still;

impl Compute for Still {
    fn resume(&mut self, _handle: &ResumeHandle) -> ResumeOutcome {
        ResumeOutcome::Suspended
    }
}

/// Suspends on the first resume, without waking itself, then completes.
struct SuspendOnce {
    parked: bool,
}

impl Compute for SuspendOnce {
    fn resume(&mut self, _handle: &ResumeHandle) -> ResumeOutcome {
        if self.parked {
            ResumeOutcome::Complete
        } else {
            self.parked = true;
            ResumeOutcome::Suspended
        }
    }
}

/// Wakes itself on every resume and never completes.
struct Spinner;

impl Compute for Spinner {
    fn resume(&mut self, handle: &ResumeHandle) -> ResumeOutcome {
        handle.invoke();
        ResumeOutcome::Suspended
    }
}

#[test]
fn countdown_runs_to_completion_exactly_once() {
    let completions = Rc::new(RefCell::new(0u32));
    let mut exec: Executor<Countdown> = Executor::new();
    exec.spawn(Task::new(
        TaskId(1),
        Countdown { remaining: 3, completions: completions.clone() },
    ));
    let finished = exec.run(100);
    assert!(finished);
    assert_eq!(exec.waiting_len(), 0);
    assert_eq!(exec.ready_len(), 0);
    assert_eq!(*completions.borrow(), 1);
}

#[test]
fn one_pass_resumes_in_spawn_order() {
    let log = Rc::new(RefCell::new(Vec::new()));
    let mut exec: Executor<Logger> = Executor::new();
    exec.spawn(Task::new(TaskId(1), Logger { label: 10, log: log.clone() }));
    exec.spawn(Task::new(TaskId(2), Logger { label: 20, log: log.clone() }));
    exec.spawn(Task::new(TaskId(3), Logger { label: 30, log: log.clone() }));
    exec.run_ready_tasks();
    assert_eq!(*log.borrow(), vec![10, 20, 30]);
    assert_eq!(exec.ready_len(), 0);
    assert_eq!(exec.waiting_len(), 0);
}

#[test]
fn double_wake_while_waiting_coalesces_to_one_resume() {
    let resumes = Rc::new(RefCell::new(0u32));
    let mut exec: Executor<Parker> = Executor::new();
    exec.spawn(Task::new(TaskId(7), Parker { resumes: resumes.clone() }));
    exec.run_ready_tasks();
    assert!(exec.waiting_contains(TaskId(7)));
    assert_eq!(*resumes.borrow(), 1);

    let handle = exec.handle_for(TaskId(7)).expect("a parked task has a cached handle");
    assert!(handle.invoke());
    assert!(handle.invoke());
    exec.wake_tasks();
    assert_eq!(exec.ready_len(), 1);
    assert_eq!(exec.waiting_len(), 0);

    exec.run_ready_tasks();
    assert_eq!(*resumes.borrow(), 2);
    assert_eq!(exec.waiting_len(), 1);
    assert_eq!(exec.ready_len(), 0);
}

#[test]
fn woken_sleeper_is_reparked_without_leaking() {
    let resumes = Rc::new(RefCell::new(0u32));
    let mut exec: Executor<Parker> = Executor::new();
    exec.spawn(Task::new(TaskId(4), Parker { resumes: resumes.clone() }));
    exec.run_ready_tasks();
    let handle = exec.handle_for(TaskId(4)).expect("a parked task has a cached handle");
    assert!(handle.invoke());
    exec.wake_tasks();
    exec.run_ready_tasks();
    assert_eq!(*resumes.borrow(), 2);
    assert_eq!(exec.waiting_len(), 1);
    assert_eq!(exec.ready_len(), 0);
}

#[test]
fn concurrent_wakes_requeue_the_task_once() {
    let mut exec: Executor<Still> = Executor::new();
    exec.spawn(Task::new(TaskId(5), Still));
    exec.run_ready_tasks();
    let handle = exec.handle_for(TaskId(5)).expect("a parked task has a cached handle");

    crossbeam::scope(|s| {
        for _ in 0..4 {
            let h = handle.clone();
            s.spawn(move |_| {
                for _ in 0..10 {
                    h.invoke();
                }
            });
        }
    })
    .unwrap();

    exec.wake_tasks();
    assert_eq!(exec.ready_len(), 1);
    assert_eq!(exec.waiting_len(), 0);
    exec.run_ready_tasks();
    assert_eq!(exec.waiting_len(), 1);
}

#[test]
fn idle_scheduler_blocks_until_an_external_wake_then_finishes() {
    let mut exec: Executor<SuspendOnce> = Executor::new();
    exec.spawn(Task::new(TaskId(3), SuspendOnce { parked: false }));
    exec.run_ready_tasks();
    let handle = exec.handle_for(TaskId(3)).expect("a parked task has a cached handle");

    let (finished, exec) = crossbeam::scope(|s| {
        let driver = s.spawn(move |_| {
            let finished = exec.run(10);
            (finished, exec)
        });
        crossbeam::channel::after(Duration::from_millis(100)).recv().unwrap();
        assert!(handle.invoke());
        driver.join().unwrap()
    })
    .unwrap();

    assert!(finished);
    assert_eq!(exec.waiting_len(), 0);
    assert_eq!(exec.ready_len(), 0);
}

#[test]
fn stale_wake_for_a_completed_task_is_harmless() {
    let mut exec: Executor<SuspendOnce> = Executor::new();
    exec.spawn(Task::new(TaskId(9), SuspendOnce { parked: false }));
    exec.run_ready_tasks();
    let handle = exec.handle_for(TaskId(9)).expect("a parked task has a cached handle");
    assert!(handle.invoke());
    exec.wake_tasks();
    exec.run_ready_tasks();
    assert_eq!(exec.waiting_len(), 0);
    assert_eq!(exec.ready_len(), 0);
    assert!(exec.handle_for(TaskId(9)).is_none());

    assert!(handle.invoke());
    exec.wake_tasks();
    assert_eq!(exec.waiting_len(), 0);
    assert_eq!(exec.ready_len(), 0);
    assert!(exec.run(1));
}

#[test]
fn run_reports_an_exhausted_budget() {
    let mut exec: Executor<Spinner> = Executor::new();
    exec.spawn(Task::new(TaskId(2), Spinner));
    let finished = exec.run(3);
    assert!(!finished);
    assert_eq!(exec.waiting_len() + exec.ready_len(), 1);
}

/// Completes on the first resume when told to; suspends forever otherwise.
struct Either {
    complete: bool,
}

impl Compute for Either {
    fn resume(&mut self, _handle: &ResumeHandle) -> ResumeOutcome {
        if self.complete {
            ResumeOutcome::Complete
        } else {
            ResumeOutcome::Suspended
        }
    }
}

#[test]
fn one_pass_routes_each_task_by_its_outcome() {
    let mut exec: Executor<Either> = Executor::new();
    exec.spawn(Task::new(TaskId(1), Either { complete: true }));
    exec.spawn(Task::new(TaskId(2), Either { complete: false }));
    exec.spawn(Task::new(TaskId(3), Either { complete: true }));
    exec.run_ready_tasks();
    assert_eq!(exec.ready_len(), 0);
    assert_eq!(exec.waiting_len(), 1);
    assert!(!exec.waiting_contains(TaskId(1)));
    assert!(exec.waiting_contains(TaskId(2)));
    assert!(!exec.waiting_contains(TaskId(3)));
    // Completed tasks lose their cached handle; the suspended one keeps it.
    assert!(exec.handle_for(TaskId(1)).is_none());
    assert!(exec.handle_for(TaskId(2)).is_some());
    assert!(exec.handle_for(TaskId(3)).is_none());
}

#[test]
fn an_empty_scheduler_finishes_immediately() {
    let mut exec: Executor<Still> = Executor::new();
    assert!(exec.run(0));
    assert_eq!(exec.ready_len(), 0);
    assert_eq!(exec.waiting_len(), 0);
}

#[test]
fn no_handle_is_cached_before_the_first_resume() {
    let mut exec: Executor<Still> = Executor::new();
    exec.spawn(Task::new(TaskId(6), Still));
    assert!(exec.handle_for(TaskId(6)).is_none());
    exec.run_ready_tasks();
    assert!(exec.handle_for(TaskId(6)).is_some());
}

#[test]
fn a_full_wake_queue_rejects_further_wakes() {
    let mut exec: Executor<Still> = Executor::with_capacity(1);
    exec.spawn(Task::new(TaskId(1), Still));
    exec.run_ready_tasks();
    let handle = exec.handle_for(TaskId(1)).expect("a parked task has a cached handle");
    assert!(handle.invoke());
    assert!(!handle.invoke());
    exec.wake_tasks();
    assert_eq!(exec.ready_len(), 1);
}
