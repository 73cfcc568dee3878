use std::cell::RefCell;
use std::rc::Rc;

use async_bottom_up::task::simple_executor::SimpleExecutor;
use async_bottom_up::task::wake::ResumeHandle;
use async_bottom_up::task::{Compute, ResumeOutcome, Task, TaskId};

/// Completes on its first resume.
struct CompleteNow;

impl Compute for CompleteNow {
    fn resume(&mut self, _handle: &ResumeHandle) -> ResumeOutcome {
        ResumeOutcome::Complete
    }
}

/// Decrements once per resume; completes at zero, counting completions.
struct Countdown {
    remaining: u32,
    completions: Rc<RefCell<u32>>,
}

impl Compute for Countdown {
    fn resume(&mut self, handle: &ResumeHandle) -> ResumeOutcome {
        if self.remaining == 0 {
            *self.completions.borrow_mut() += 1;
            ResumeOutcome::Complete
        } else {
            self.remaining -= 1;
            handle.invoke();
            ResumeOutcome::Suspended
        }
    }
}

#[test]
fn simple_executor_drives_all_tasks_to_completion() {
    let completions = Rc::new(RefCell::new(0u32));
    let mut exec: SimpleExecutor<Countdown> = SimpleExecutor::new();
    exec.spawn(Task::new(
        TaskId(1),
        Countdown { remaining: 2, completions: completions.clone() },
    ));
    exec.spawn(Task::new(
        TaskId(2),
        Countdown { remaining: 0, completions: completions.clone() },
    ));
    let finished = exec.run(100);
    assert!(finished);
    assert_eq!(*completions.borrow(), 2);
}

#[test]
fn step_routes_by_the_outcome() {
    let completions = Rc::new(RefCell::new(0u32));
    let mut exec: SimpleExecutor<Countdown> = SimpleExecutor::new();
    exec.spawn(Task::new(
        TaskId(1),
        Countdown { remaining: 1, completions: completions.clone() },
    ));
    exec.spawn(Task::new(
        TaskId(2),
        Countdown { remaining: 0, completions: completions.clone() },
    ));
    // First step: task 1 suspends and is re-queued at the back.
    assert_eq!(exec.step(), Some((TaskId(1), ResumeOutcome::Suspended)));
    assert_eq!(exec.len(), 2);
    // Second step: task 2 completes and is dropped.
    assert_eq!(exec.step(), Some((TaskId(2), ResumeOutcome::Complete)));
    assert_eq!(exec.len(), 1);
    // Third step: task 1 comes round again and completes.
    assert_eq!(exec.step(), Some((TaskId(1), ResumeOutcome::Complete)));
    assert_eq!(exec.len(), 0);
    assert_eq!(exec.step(), None);
    assert_eq!(*completions.borrow(), 2);
}

#[test]
fn a_fresh_simple_executor_finishes_at_once() {
    let mut exec: SimpleExecutor<CompleteNow> = SimpleExecutor::new();
    assert!(exec.run(0));
    assert_eq!(exec.len(), 0);
}

#[test]
fn simple_executor_reports_an_exhausted_budget() {
    let completions = Rc::new(RefCell::new(0u32));
    let mut exec: SimpleExecutor<Countdown> = SimpleExecutor::new();
    exec.spawn(Task::new(
        TaskId(1),
        Countdown { remaining: 1_000_000, completions: completions.clone() },
    ));
    let finished = exec.run(5);
    assert!(!finished);
    assert_eq!(*completions.borrow(), 0);
}
