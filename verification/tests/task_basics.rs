use async_bottom_up::task::wake::ResumeHandle;
use async_bottom_up::task::{Compute, ResumeOutcome, Task, TaskId, TaskIdGen};

struct CompleteNow;

impl Compute for CompleteNow {
    fn resume(&mut self, _handle: &ResumeHandle) -> ResumeOutcome {
        ResumeOutcome::Complete
    }
}

#[test]
fn task_keeps_its_identity() {
    let task: Task<CompleteNow> = Task::new(TaskId(42), CompleteNow);
    assert_eq!(task.id(), TaskId(42));
}

#[test]
fn poll_reports_the_computation_outcome() {
    let mut task = Task::new(TaskId(1), CompleteNow);
    let handle = ResumeHandle::inert(task.id());
    assert_eq!(task.poll(&handle), ResumeOutcome::Complete);
    assert_eq!(task.id(), TaskId(1));
}

#[test]
fn inert_handle_discards_wakes() {
    let handle = ResumeHandle::inert(TaskId(9));
    assert_eq!(handle.id(), TaskId(9));
    assert!(!handle.invoke());
    assert!(!handle.invoke());
}

#[test]
fn cloned_handle_wakes_the_same_task() {
    let handle = ResumeHandle::inert(TaskId(5));
    let copy = handle.clone();
    assert_eq!(copy.id(), TaskId(5));
}

#[test]
fn id_generator_never_repeats() {
    let mut gen = TaskIdGen::new();
    let a = gen.fresh();
    let b = gen.fresh();
    let c = gen.fresh();
    assert_eq!(a, TaskId(0));
    assert_eq!(b, TaskId(1));
    assert_eq!(c, TaskId(2));
}
