//! A baseline executor that busy-spins: a task that suspends is immediately
//! re-queued at the back, with an inert resumption handle, so wakes play no
//! part.

use vstd::prelude::*;

use crate::task::executor::lemma_ids_push;
use crate::task::wake::ResumeHandle;
use crate::task::{ids_of, Compute, ResumeOutcome, Task, TaskId};

verus! {

/// How many of the recorded outcomes are `Complete`: each one is a task that
/// left the queue for good.
pub open spec fn completed_count(outs: Seq<ResumeOutcome>) -> nat
    decreases outs.len(),
{
    if outs.len() == 0 {
        0
    } else {
        (if outs[0] is Complete {
            1nat
        } else {
            0nat
        }) + completed_count(outs.drop_first())
    }
}

/// How recording one more outcome changes the completed count.
pub proof fn lemma_completed_count_push(outs: Seq<ResumeOutcome>, oc: ResumeOutcome)
    ensures
        completed_count(outs.push(oc)) == completed_count(outs) + (if oc is Complete {
            1int
        } else {
            0int
        }),
    decreases outs.len(),
{
    if outs.len() == 0 {
        assert(outs.push(oc)[0] == oc);
        assert(outs.push(oc).drop_first() =~= Seq::<ResumeOutcome>::empty());
        assert(completed_count(Seq::<ResumeOutcome>::empty()) == 0);
    } else {
        assert(outs.push(oc)[0] == outs[0]);
        assert(outs.push(oc).drop_first() =~= outs.drop_first().push(oc));
        lemma_completed_count_push(outs.drop_first(), oc);
    }
}

/// The busy-spinning executor: just a FIFO queue of tasks.
pub struct SimpleExecutor<C> {
    task_queue: Vec<Task<C>>,
    resumed: Ghost<Seq<TaskId>>,
    outcomes: Ghost<Seq<ResumeOutcome>>,
}

impl<C> SimpleExecutor<C> {
    /// The queued tasks, front first.
    pub closed spec fn queue(&self) -> Seq<Task<C>> {
        self.task_queue@
    }

    /// Every resume performed so far, in order.
    pub closed spec fn resumed_log(&self) -> Seq<TaskId> {
        self.resumed@
    }

    /// The outcome each resume reported, aligned with `resumed_log`.
    pub closed spec fn outcome_log(&self) -> Seq<ResumeOutcome> {
        self.outcomes@
    }

    /// The executor's invariant: the two logs line up.
    pub open spec fn wf(&self) -> bool {
        self.outcome_log().len() == self.resumed_log().len()
    }

    /// An executor with no tasks and nothing resumed yet.
    pub fn new() -> (e: SimpleExecutor<C>)
        ensures
            e.wf(),
            e.queue() == Seq::<Task<C>>::empty(),
            e.resumed_log().len() == 0,
            e.outcome_log().len() == 0,
    {
        SimpleExecutor {
            task_queue: Vec::new(),
            resumed: Ghost(Seq::empty()),
            outcomes: Ghost(Seq::empty()),
        }
    }

    /// Number of queued tasks.
    pub fn len(&self) -> (n: usize)
        ensures
            n == self.queue().len(),
    {
        self.task_queue.len()
    }

    /// Appends a task at the back of the queue.
    pub fn spawn(&mut self, task: Task<C>)
        requires
            old(self).wf(),
        ensures
            final(self).wf(),
            final(self).queue() == old(self).queue().push(task),
            final(self).resumed_log() == old(self).resumed_log(),
            final(self).outcome_log() == old(self).outcome_log(),
    {
        self.task_queue.push(task);
    }
}

impl<C: Compute> SimpleExecutor<C> {
    /// Drives the front task once: pops it, resumes it with an inert handle,
    /// and routes it by the outcome — a task that suspends is re-queued at
    /// the back, one that completes is dropped. Returns the identity resumed
    /// and the outcome it reported; `None` when the queue is empty, with
    /// nothing changed.
    pub fn step(&mut self) -> (r: Option<(TaskId, ResumeOutcome)>)
        requires
            old(self).wf(),
        ensures
            final(self).wf(),
            old(self).queue().len() == 0 ==> r is None && final(self).queue() == old(self).queue()
                && final(self).resumed_log() == old(self).resumed_log()
                && final(self).outcome_log() == old(self).outcome_log(),
            old(self).queue().len() != 0 ==> ({
                &&& r is Some
                &&& ({
                    let (id, oc) = r->Some_0;
                    &&& id == old(self).queue()[0].spec_id()
                    &&& final(self).resumed_log() == old(self).resumed_log().push(id)
                    &&& final(self).outcome_log() == old(self).outcome_log().push(oc)
                    &&& (oc is Complete ==> final(self).queue() == old(self).queue().skip(1))
                    &&& (oc is Suspended ==> ids_of(final(self).queue()) == ids_of(
                        old(self).queue(),
                    ).skip(1).push(id) && final(self).queue().take(
                        old(self).queue().len() - 1,
                    ) == old(self).queue().skip(1))
                })
            }),
    {
        if self.task_queue.len() == 0 {
            return None;
        }
        let ghost prev = *self;
        let mut task = self.task_queue.remove(0);
        let id = task.id();
        proof {
            assert(self.queue() =~= prev.queue().skip(1));
        }
        let handle = ResumeHandle::inert(id);
        let outcome = task.poll(&handle);
        self.resumed = Ghost(self.resumed@.push(id));
        self.outcomes = Ghost(self.outcomes@.push(outcome));
        match outcome {
            ResumeOutcome::Suspended => {
                proof {
                    lemma_ids_push(prev.queue().skip(1), task);
                }
                self.task_queue.push(task);
                proof {
                    assert(ids_of(prev.queue().skip(1)) =~= ids_of(prev.queue()).skip(1));
                    assert(self.queue().take(prev.queue().len() - 1) =~= prev.queue().skip(1));
                }
            },
            ResumeOutcome::Complete => {},
        }
        Some((id, outcome))
    }

    /// Resumes the front task over and over, re-queueing it at the back each
    /// time it suspends, until every task has completed or `fuel` resumes
    /// have been spent. Returns whether the queue was driven empty. The
    /// resume and outcome logs record each resume, in order, with identities
    /// the caller spawned; the queue shrinks by exactly the resumes that
    /// reported `Complete`, and holds only identities it already held — so
    /// an empty executor finishes at once, and tasks leave only by
    /// completing.
    pub fn run(&mut self, fuel: u64) -> (finished: bool)
        requires
            old(self).wf(),
        ensures
            final(self).wf(),
            finished == (final(self).queue().len() == 0),
            final(self).resumed_log().len() <= old(self).resumed_log().len() + fuel,
            final(self).resumed_log().take(old(self).resumed_log().len() as int) == old(
                self,
            ).resumed_log(),
            final(self).outcome_log().take(old(self).outcome_log().len() as int) == old(
                self,
            ).outcome_log(),
            final(self).queue().len() == old(self).queue().len() - completed_count(
                final(self).outcome_log().skip(old(self).outcome_log().len() as int),
            ),
            forall|j: int|
                0 <= j < final(self).queue().len() ==> ids_of(old(self).queue()).contains(
                    ids_of(final(self).queue())[j],
                ),
            forall|j: int|
                old(self).resumed_log().len() <= j < final(self).resumed_log().len() ==> ids_of(
                    old(self).queue(),
                ).contains(final(self).resumed_log()[j]),
    {
        let ghost base = old(self).resumed_log().len() as int;
        let mut remaining: u64 = fuel;
        proof {
            assert(self.resumed_log().take(base) =~= old(self).resumed_log());
            assert(self.outcome_log().take(base) =~= old(self).outcome_log());
            assert(self.outcome_log().skip(base) =~= Seq::<ResumeOutcome>::empty());
            assert(completed_count(Seq::<ResumeOutcome>::empty()) == 0);
        }
        while self.task_queue.len() != 0 && remaining != 0
            invariant
                self.wf(),
                base == old(self).resumed_log().len() as int,
                base == old(self).outcome_log().len() as int,
                remaining <= fuel,
                self.resumed_log().len() >= base,
                self.resumed_log().len() <= base + (fuel - remaining),
                self.resumed_log().take(base) == old(self).resumed_log(),
                self.outcome_log().take(base) == old(self).outcome_log(),
                self.queue().len() == old(self).queue().len() - completed_count(
                    self.outcome_log().skip(base),
                ),
                forall|j: int|
                    0 <= j < self.queue().len() ==> ids_of(old(self).queue()).contains(
                        ids_of(self.queue())[j],
                    ),
                forall|j: int|
                    base <= j < self.resumed_log().len() ==> ids_of(old(self).queue()).contains(
                        self.resumed_log()[j],
                    ),
            decreases remaining,
        {
            remaining = remaining - 1;
            let ghost prev = *self;
            let r = self.step();
            proof {
                let (id, oc) = r->Some_0;
                assert(id == ids_of(prev.queue())[0]);
                assert(ids_of(old(self).queue()).contains(id));
                assert(self.resumed_log().take(base) =~= prev.resumed_log().take(base));
                assert(self.outcome_log().take(base) =~= prev.outcome_log().take(base));
                assert(self.outcome_log().skip(base) =~= prev.outcome_log().skip(base).push(oc));
                lemma_completed_count_push(prev.outcome_log().skip(base), oc);
                if oc is Complete {
                    assert(self.queue() == prev.queue().skip(1));
                    assert forall|j: int|
                        0 <= j < self.queue().len() implies ids_of(old(self).queue()).contains(
                        ids_of(self.queue())[j],
                    ) by {
                        assert(self.queue()[j] == prev.queue()[j + 1]);
                        assert(ids_of(self.queue())[j] == ids_of(prev.queue())[j + 1]);
                    }
                } else {
                    assert(ids_of(self.queue()) == ids_of(prev.queue()).skip(1).push(id));
                    assert forall|j: int|
                        0 <= j < self.queue().len() implies ids_of(old(self).queue()).contains(
                        ids_of(self.queue())[j],
                    ) by {
                        if j < self.queue().len() - 1 {
                            assert(ids_of(self.queue())[j] == ids_of(prev.queue())[j + 1]);
                        } else {
                            assert(ids_of(self.queue())[j] == id);
                        }
                    }
                }
            }
        }
        self.task_queue.len() == 0
    }
}

} // verus!
