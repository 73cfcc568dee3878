//! The wake-notification subsystem: the shared wake queue, the idle signal,
//! and the per-task resumption handle.
//!
//! The wake queue is a bounded multi-producer/single-consumer queue of task
//! identities; the idle signal is a single-slot channel that unblocks the
//! scheduler when it is waiting for work. Both are shared with resumption
//! handles, which may be invoked from other threads, so nothing about their
//! contents can be pinned down here: the scheduler is verified to behave
//! correctly for every identity that comes out of the queue.

use vstd::prelude::*;

use std::sync::Arc;

use crate::task::TaskId;

verus! {

#[verifier::external_type_specification]
#[verifier::external_body]
#[verifier::reject_recursive_types(T)]
pub struct ExArrayQueue<T>(crossbeam::queue::ArrayQueue<T>);

#[verifier::external_type_specification]
#[verifier::external_body]
#[verifier::reject_recursive_types(T)]
pub struct ExSender<T>(crossbeam::channel::Sender<T>);

#[verifier::external_type_specification]
#[verifier::external_body]
#[verifier::reject_recursive_types(T)]
pub struct ExReceiver<T>(crossbeam::channel::Receiver<T>);

/// Relies on crossbeam::queue::ArrayQueue::new, which panics when the
/// capacity is zero; the queue starts empty and holds at most `capacity`
/// identities.
#[verifier::external_body]
pub(crate) fn new_wake_queue(capacity: usize) -> (q: crossbeam::queue::ArrayQueue<u64>)
    requires
        capacity >= 1,
{
    crossbeam::queue::ArrayQueue::new(capacity)
}

/// Relies on crossbeam::queue::ArrayQueue::push: Ok when the value was
/// enqueued, Err with the value back when the queue was full. Other threads
/// push to the same queue, so no more is stated.
#[verifier::external_body]
pub(crate) fn wake_queue_push(q: &Arc<crossbeam::queue::ArrayQueue<u64>>, id: u64) -> (enqueued:
    bool)
{
    match q.push(id) {
        Ok(()) => true,
        Err(_) => false,
    }
}

/// Relies on crossbeam::queue::ArrayQueue::pop: Some with an element of the
/// queue, None when it was observed empty. Which identity comes out depends on
/// what other threads pushed, so no more is stated.
#[verifier::external_body]
pub(crate) fn wake_queue_pop(q: &Arc<crossbeam::queue::ArrayQueue<u64>>) -> (r: Option<u64>) {
    q.pop()
}

/// Relies on crossbeam::queue::ArrayQueue::is_empty; the answer is already
/// stale when it returns, so no more is stated.
#[verifier::external_body]
pub(crate) fn wake_queue_is_empty(q: &Arc<crossbeam::queue::ArrayQueue<u64>>) -> (r: bool) {
    q.is_empty()
}

/// Relies on alloc::sync::Arc::clone: the clone refers to the same queue.
#[verifier::external_body]
pub(crate) fn clone_queue(q: &Arc<crossbeam::queue::ArrayQueue<u64>>) -> (r: Arc<
    crossbeam::queue::ArrayQueue<u64>,
>)
    ensures
        r == *q,
{
    Arc::clone(q)
}

/// Relies on crossbeam::channel::bounded: a fresh channel that buffers at
/// most one pending message.
#[verifier::external_body]
pub(crate) fn new_idle_signal() -> (r: (
    crossbeam::channel::Sender<()>,
    crossbeam::channel::Receiver<()>,
)) {
    crossbeam::channel::bounded(1)
}

/// Relies on crossbeam::channel::Sender::try_send: never blocks; true when
/// the message was delivered, false when the slot was full or the receiver is
/// gone (either way the scheduler is not idle-blocked on an empty slot).
#[verifier::external_body]
pub(crate) fn idle_notify(s: &crossbeam::channel::Sender<()>) -> (delivered: bool) {
    match s.try_send(()) {
        Ok(()) => true,
        Err(_) => false,
    }
}

/// Relies on crossbeam::channel::Receiver::recv: blocks until a message
/// arrives; true on a message, false when every sender is gone.
#[verifier::external_body]
pub(crate) fn idle_wait(r: &crossbeam::channel::Receiver<()>) -> (received: bool) {
    match r.recv() {
        Ok(()) => true,
        Err(_) => false,
    }
}

/// Relies on crossbeam::channel::Sender::clone: the clone sends to the same
/// channel.
#[verifier::external_body]
pub(crate) fn clone_sender(s: &crossbeam::channel::Sender<()>) -> (r: crossbeam::channel::Sender<
    (),
>) {
    s.clone()
}

/// The shared references a live resumption handle carries.
struct WakeSink {
    queue: Arc<crossbeam::queue::ArrayQueue<u64>>,
    signal: crossbeam::channel::Sender<()>,
}

/// Per-task resumption handle (suspension token): a cloneable capability
/// correlated to one task identity. Invoking it tells the scheduler "this
/// task may now be resumable" by enqueueing the identity on the wake queue
/// and nudging the idle signal. It holds no reference to the task itself, so
/// invoking it after the task has completed is a harmless no-op.
pub struct ResumeHandle {
    task_id: TaskId,
    sink: Option<WakeSink>,
}

impl ResumeHandle {
    /// The identity of the task this handle wakes.
    pub closed spec fn spec_id(&self) -> TaskId {
        self.task_id
    }

    /// Whether the handle is wired to a scheduler's wake queue and idle
    /// signal; an unattached (inert) handle discards every wake.
    pub closed spec fn is_attached(&self) -> bool {
        self.sink is Some
    }

    /// The identity of the task this handle wakes.
    pub fn id(&self) -> (r: TaskId)
        ensures
            r == self.spec_id(),
    {
        self.task_id
    }

    /// A handle that discards every wake: for driving a task outside any
    /// waiting set, where a wake has nowhere to go.
    pub fn inert(task_id: TaskId) -> (h: ResumeHandle)
        ensures
            h.spec_id() == task_id,
            !h.is_attached(),
    {
        ResumeHandle { task_id, sink: None }
    }

    /// A handle wired to a scheduler's wake queue and idle signal.
    pub(crate) fn attached(
        task_id: TaskId,
        queue: &Arc<crossbeam::queue::ArrayQueue<u64>>,
        signal: &crossbeam::channel::Sender<()>,
    ) -> (h: ResumeHandle)
        ensures
            h.spec_id() == task_id,
            h.is_attached(),
    {
        ResumeHandle {
            task_id,
            sink: Some(WakeSink { queue: clone_queue(queue), signal: clone_sender(signal) }),
        }
    }

    /// Announces that the task may be resumable: enqueues the task's identity
    /// on the wake queue, then nudges the idle signal. Safe to call any number
    /// of times, from any thread, even after the task has completed. Returns
    /// whether the wake was enqueued; it is not when the handle is inert or
    /// the wake queue is full. What the shared queue does with the identity
    /// cannot be pinned down here; the scheduler's drain is verified for
    /// every identity the queue yields.
    pub fn invoke(&self) -> (delivered: bool)
        ensures
            !self.is_attached() ==> !delivered,
    {
        match &self.sink {
            None => false,
            Some(sink) => {
                let enqueued = wake_queue_push(&sink.queue, self.task_id.0);
                if enqueued {
                    idle_notify(&sink.signal);
                }
                enqueued
            },
        }
    }
}

impl Clone for ResumeHandle {
    /// The clone wakes the same task through the same queue and signal, and
    /// is attached exactly when the original is.
    fn clone(&self) -> (r: Self)
        ensures
            r.spec_id() == self.spec_id(),
            r.is_attached() == self.is_attached(),
    {
        let sink = match &self.sink {
            None => None,
            Some(s) => Some(
                WakeSink { queue: clone_queue(&s.queue), signal: clone_sender(&s.signal) },
            ),
        };
        ResumeHandle { task_id: self.task_id, sink }
    }
}

} // verus!
