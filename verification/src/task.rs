//! Tasks: one suspendable computation with a stable identity.

pub mod executor;
pub mod simple_executor;
pub mod wake;

use vstd::prelude::*;

use crate::task::wake::ResumeHandle;

verus! {

/// Identity of one task, unique among the live tasks of one scheduler.
#[derive(Clone, Copy, Debug, PartialEq, Eq, Structural)]
pub struct TaskId(pub u64);

/// What one resume step of a computation reports: either the computation is
/// finished, or it cannot proceed until an external event invokes its
/// resumption handle.
#[derive(Clone, Copy, Debug, PartialEq, Eq, Structural)]
pub enum ResumeOutcome {
    Complete,
    Suspended,
}

/// One suspendable computation. `resume` advances the computation once; a
/// computation that returns `Suspended` is expected to store (or hand on) a
/// clone of `handle` so that some future event can invoke it — otherwise the
/// task is never offered to the scheduler again.
pub trait Compute {
    fn resume(&mut self, handle: &ResumeHandle) -> ResumeOutcome;
}

/// One task: a computation paired with its identity.
pub struct Task<C> {
    id: TaskId,
    computation: C,
}

impl<C> Task<C> {
    /// The task's identity, for use in contracts.
    pub closed spec fn spec_id(&self) -> TaskId {
        self.id
    }

    /// Wraps a computation with the given identity. The caller picks `id`
    /// fresh for the scheduler that will own the task.
    pub fn new(id: TaskId, computation: C) -> (t: Task<C>)
        ensures
            t.spec_id() == id,
    {
        Task { id, computation }
    }

    /// The identity given at creation; stable for the task's whole lifetime.
    pub fn id(&self) -> (r: TaskId)
        ensures
            r == self.spec_id(),
    {
        self.id
    }
}

impl<C: Compute> Task<C> {
    /// Advances the computation once. The outcome is the computation's to
    /// decide; the task's identity never changes.
    pub fn poll(&mut self, handle: &ResumeHandle) -> (r: ResumeOutcome)
        ensures
            final(self).spec_id() == old(self).spec_id(),
    {
        self.computation.resume(handle)
    }
}

/// The identities of a sequence of tasks, in the same order.
pub open spec fn ids_of<C>(ts: Seq<Task<C>>) -> Seq<TaskId> {
    ts.map_values(|t: Task<C>| t.spec_id())
}

/// A source of fresh task identities: a monotonically increasing counter,
/// so an identity is never reused while any reference to an earlier task —
/// in the waiting set, the wake queue, or a stale handle — might survive.
pub struct TaskIdGen {
    next: u64,
}

impl TaskIdGen {
    /// The value the next issued identity will carry; every identity issued
    /// so far is smaller.
    pub closed spec fn spec_next(&self) -> u64 {
        self.next
    }

    /// A generator that has issued nothing yet.
    pub fn new() -> (g: TaskIdGen)
        ensures
            g.spec_next() == 0,
    {
        TaskIdGen { next: 0 }
    }

    /// Issues the next identity, different from every identity issued
    /// before.
    pub fn fresh(&mut self) -> (id: TaskId)
        requires
            old(self).spec_next() < u64::MAX,
        ensures
            id == TaskId(old(self).spec_next()),
            final(self).spec_next() == old(self).spec_next() + 1,
    {
        let id = TaskId(self.next);
        self.next = self.next + 1;
        id
    }
}

} // verus!
