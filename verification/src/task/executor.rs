//! The scheduler: a ready queue, a waiting set, a resumption-handle cache,
//! and the drive loop over them.
//!
//! A single thread drives the loop; resumption handles may be invoked from
//! any thread. Everything the loop owns (`task_queue`, `waiting_tasks`,
//! `waker_cache`) is verified exactly; what comes out of the shared wake
//! queue is arbitrary, and the loop is verified to behave correctly for
//! every identity it yields.

use vstd::prelude::*;

use std::sync::Arc;

use crate::task::wake::{
    idle_wait, new_idle_signal, new_wake_queue, wake_queue_is_empty, wake_queue_pop, ResumeHandle,
};
use crate::task::{ids_of, ResumeOutcome, Task, TaskId};

verus! {

/// Default bound on buffered, not-yet-drained wakes.
pub const DEFAULT_WAKE_CAPACITY: usize = 100;

/// Whether some task in `ts` has the identity `id`.
pub open spec fn contains_id<C>(ts: Seq<Task<C>>, id: TaskId) -> bool {
    ids_of(ts).contains(id)
}

/// Whether the tasks of `ts` all have pairwise different identities.
pub open spec fn distinct_ids<C>(ts: Seq<Task<C>>) -> bool {
    ids_of(ts).no_duplicates()
}

/// Whether no identity occurs both in `a` and in `b`.
pub open spec fn disjoint_ids<C>(a: Seq<Task<C>>, b: Seq<Task<C>>) -> bool {
    forall|id: TaskId| contains_id(a, id) ==> !contains_id(b, id)
}

/// The identities a sequence of resumption handles wakes.
pub open spec fn handle_ids(hs: Seq<ResumeHandle>) -> Seq<TaskId> {
    hs.map_values(|h: ResumeHandle| h.spec_id())
}

/// Of identities resumed with the recorded outcomes, those whose outcome was
/// `Suspended`, in order: the tasks a pass keeps in the scheduler.
pub open spec fn kept_ids(ids: Seq<TaskId>, outs: Seq<ResumeOutcome>) -> Seq<TaskId>
    recommends
        ids.len() == outs.len(),
    decreases ids.len(),
{
    if ids.len() == 0 {
        Seq::empty()
    } else if outs[0] is Suspended {
        seq![ids[0]] + kept_ids(ids.drop_first(), outs.drop_first())
    } else {
        kept_ids(ids.drop_first(), outs.drop_first())
    }
}

/// How recording one more resume extends the kept identities.
pub proof fn lemma_kept_ids_push(
    ids: Seq<TaskId>,
    outs: Seq<ResumeOutcome>,
    id: TaskId,
    oc: ResumeOutcome,
)
    requires
        ids.len() == outs.len(),
    ensures
        kept_ids(ids.push(id), outs.push(oc)) == (if oc is Suspended {
            kept_ids(ids, outs).push(id)
        } else {
            kept_ids(ids, outs)
        }),
    decreases ids.len(),
{
    if ids.len() == 0 {
        assert(ids.push(id)[0] == id);
        assert(outs.push(oc)[0] == oc);
        assert(ids.push(id).drop_first() =~= Seq::<TaskId>::empty());
        assert(outs.push(oc).drop_first() =~= Seq::<ResumeOutcome>::empty());
        assert(kept_ids(Seq::<TaskId>::empty(), Seq::<ResumeOutcome>::empty())
            == Seq::<TaskId>::empty());
        assert(kept_ids(ids, outs) == Seq::<TaskId>::empty());
        if oc is Suspended {
            assert(kept_ids(ids.push(id), outs.push(oc)) == seq![id] + Seq::<TaskId>::empty());
            assert(seq![id] + Seq::<TaskId>::empty() =~= kept_ids(ids, outs).push(id));
        }
    } else {
        assert(ids.push(id)[0] == ids[0]);
        assert(outs.push(oc)[0] == outs[0]);
        assert(ids.push(id).drop_first() =~= ids.drop_first().push(id));
        assert(outs.push(oc).drop_first() =~= outs.drop_first().push(oc));
        lemma_kept_ids_push(ids.drop_first(), outs.drop_first(), id, oc);
        if outs[0] is Suspended {
            if oc is Suspended {
                assert((seq![ids[0]] + kept_ids(ids.drop_first(), outs.drop_first()).push(id))
                    =~= (seq![ids[0]] + kept_ids(ids.drop_first(), outs.drop_first())).push(id));
            }
        }
    }
}

/// What one wake signal for `id` does to the scheduler's ready queue and
/// waiting set: the first waiting task with that identity moves to the back
/// of the ready queue; when none is waiting, nothing changes.
pub open spec fn wake_step<C>(ready: Seq<Task<C>>, waiting: Seq<Task<C>>, id: TaskId) -> (Seq<
    Task<C>,
>, Seq<Task<C>>) {
    match ids_of(waiting).index_of_first(id) {
        Some(i) => (ready.push(waiting[i]), waiting.remove(i)),
        None => (ready, waiting),
    }
}

/// How appending one element changes what a sequence contains.
pub proof fn lemma_seq_push<A>(s: Seq<A>, a: A)
    ensures
        forall|x: A| s.push(a).contains(x) <==> (s.contains(x) || x == a),
        s.no_duplicates() && !s.contains(a) ==> s.push(a).no_duplicates(),
{
    assert forall|x: A| s.push(a).contains(x) implies (s.contains(x) || x == a) by {
        let j = choose|j: int| 0 <= j < s.push(a).len() && s.push(a)[j] == x;
        if j < s.len() {
            assert(s[j] == x);
        }
    }
    assert forall|x: A| s.contains(x) implies s.push(a).contains(x) by {
        let j = choose|j: int| 0 <= j < s.len() && s[j] == x;
        assert(s.push(a)[j] == x);
    }
    assert(s.push(a)[s.len() as int] == a);
}

/// How removing one element changes what a sequence contains.
pub proof fn lemma_seq_remove<A>(s: Seq<A>, i: int)
    requires
        0 <= i < s.len(),
    ensures
        forall|x: A| s.remove(i).contains(x) ==> s.contains(x),
        forall|j: int| 0 <= j < s.len() && j != i ==> s.remove(i).contains(s[j]),
        s.no_duplicates() ==> s.remove(i).no_duplicates(),
        s.no_duplicates() ==> !s.remove(i).contains(s[i]),
{
    s.remove_ensures(i);
    let s2 = s.remove(i);
    assert forall|x: A| s2.contains(x) implies s.contains(x) by {
        let j = choose|j: int| 0 <= j < s2.len() && s2[j] == x;
        if j < i {
            assert(s[j] == x);
        } else {
            assert(s[j + 1] == x);
        }
    }
    assert forall|j: int| 0 <= j < s.len() && j != i implies s2.contains(s[j]) by {
        if j < i {
            assert(s2[j] == s[j]);
        } else {
            assert(s2[j - 1] == s[j]);
        }
    }
    if s.no_duplicates() {
        assert forall|a: int, b: int|
            0 <= a < s2.len() && 0 <= b < s2.len() && a != b implies s2[a] != s2[b] by {
            let a0: int = if a < i {
                a
            } else {
                a + 1
            };
            let b0: int = if b < i {
                b
            } else {
                b + 1
            };
            assert(s2[a] == s[a0]);
            assert(s2[b] == s[b0]);
        }
        if s2.contains(s[i]) {
            let j = choose|j: int| 0 <= j < s2.len() && s2[j] == s[i];
            if j < i {
                assert(s[j] == s[i]);
            } else {
                assert(s[j + 1] == s[i]);
            }
        }
    }
}

/// How appending one task changes the identities of a task sequence.
pub proof fn lemma_ids_push<C>(ts: Seq<Task<C>>, t: Task<C>)
    ensures
        ids_of(ts.push(t)) == ids_of(ts).push(t.spec_id()),
        forall|x: TaskId| contains_id(ts.push(t), x) <==> (contains_id(ts, x) || x
            == t.spec_id()),
        distinct_ids(ts) && !contains_id(ts, t.spec_id()) ==> distinct_ids(ts.push(t)),
{
    assert(ids_of(ts.push(t)) =~= ids_of(ts).push(t.spec_id()));
    let ids = ids_of(ts);
    let ids2 = ids_of(ts.push(t));
    assert forall|x: TaskId| contains_id(ts.push(t), x) implies (contains_id(ts, x) || x
        == t.spec_id()) by {
        let j = choose|j: int| 0 <= j < ids2.len() && ids2[j] == x;
        if j < ids.len() {
            assert(ids[j] == x);
        }
    }
    assert forall|x: TaskId| contains_id(ts, x) implies contains_id(ts.push(t), x) by {
        let j = choose|j: int| 0 <= j < ids.len() && ids[j] == x;
        assert(ids2[j] == x);
    }
    assert(ids2[ids.len() as int] == t.spec_id());
    if distinct_ids(ts) && !contains_id(ts, t.spec_id()) {
        assert forall|a: int, b: int|
            0 <= a < ids2.len() && 0 <= b < ids2.len() && a != b implies ids2[a] != ids2[b] by {
            if a < ids.len() && b < ids.len() {
            } else if a < ids.len() && b == ids.len() {
                if ids[a] == t.spec_id() {
                    assert(ids.contains(t.spec_id()));
                }
            } else if a == ids.len() && b < ids.len() {
                if ids[b] == t.spec_id() {
                    assert(ids.contains(t.spec_id()));
                }
            }
        }
    }
}

/// How removing one task changes the identities of a task sequence.
pub proof fn lemma_ids_remove<C>(ts: Seq<Task<C>>, i: int)
    requires
        0 <= i < ts.len(),
    ensures
        ids_of(ts.remove(i)) == ids_of(ts).remove(i),
        forall|x: TaskId| contains_id(ts.remove(i), x) ==> contains_id(ts, x),
        forall|j: int| 0 <= j < ts.len() && j != i ==> ts.remove(i).contains(ts[j]),
        distinct_ids(ts) ==> distinct_ids(ts.remove(i)),
        distinct_ids(ts) ==> !contains_id(ts.remove(i), ts[i].spec_id()),
{
    ts.remove_ensures(i);
    ids_of(ts).remove_ensures(i);
    assert(ids_of(ts.remove(i)) =~= ids_of(ts).remove(i));
    let ids = ids_of(ts);
    let ids2 = ids_of(ts.remove(i));
    assert forall|x: TaskId| contains_id(ts.remove(i), x) implies contains_id(ts, x) by {
        let j = choose|j: int| 0 <= j < ids2.len() && ids2[j] == x;
        if j < i {
            assert(ids[j] == x);
        } else {
            assert(ids[j + 1] == x);
        }
    }
    assert forall|j: int| 0 <= j < ts.len() && j != i implies ts.remove(i).contains(ts[j]) by {
        if j < i {
            assert(ts.remove(i)[j] == ts[j]);
        } else {
            assert(ts.remove(i)[j - 1] == ts[j]);
        }
    }
    if distinct_ids(ts) {
        assert forall|a: int, b: int|
            0 <= a < ids2.len() && 0 <= b < ids2.len() && a != b implies ids2[a] != ids2[b] by {
            let a0: int = if a < i {
                a
            } else {
                a + 1
            };
            let b0: int = if b < i {
                b
            } else {
                b + 1
            };
            assert(ids2[a] == ids[a0]);
            assert(ids2[b] == ids[b0]);
        }
        if contains_id(ts.remove(i), ts[i].spec_id()) {
            let j = choose|j: int| 0 <= j < ids2.len() && ids2[j] == ts[i].spec_id();
            if j < i {
                assert(ids[j] == ids[i]);
            } else {
                assert(ids[j + 1] == ids[i]);
            }
        }
    }
}

/// The scheduler. It owns the ready queue (FIFO), the waiting set (at most
/// one task per identity), the cache of resumption handles, and the shared
/// wake queue and idle signal that handles are wired to.
pub struct Executor<C> {
    task_queue: Vec<Task<C>>,
    waiting_tasks: Vec<Task<C>>,
    wake_queue: Arc<crossbeam::queue::ArrayQueue<u64>>,
    waker_cache: Vec<ResumeHandle>,
    wake_chan_sender: crossbeam::channel::Sender<()>,
    wake_chan_receiver: crossbeam::channel::Receiver<()>,
    wake_capacity: usize,
    resumed: Ghost<Seq<TaskId>>,
    outcomes: Ghost<Seq<ResumeOutcome>>,
}

impl<C> Executor<C> {
    /// The tasks due to be resumed this pass, front first.
    pub closed spec fn ready(&self) -> Seq<Task<C>> {
        self.task_queue@
    }

    /// The suspended tasks.
    pub closed spec fn waiting(&self) -> Seq<Task<C>> {
        self.waiting_tasks@
    }

    /// The cached resumption handles.
    pub closed spec fn cache(&self) -> Seq<ResumeHandle> {
        self.waker_cache@
    }

    /// The identities whose resumption handle is cached.
    pub open spec fn cache_ids(&self) -> Seq<TaskId> {
        handle_ids(self.cache())
    }

    /// Every resume performed so far, in order.
    pub closed spec fn resumed_log(&self) -> Seq<TaskId> {
        self.resumed@
    }

    /// The outcome each resume reported, aligned with `resumed_log`.
    pub closed spec fn outcome_log(&self) -> Seq<ResumeOutcome> {
        self.outcomes@
    }

    /// The scheduler's invariant: an identity lives in at most one of the
    /// ready queue and the waiting set, and at most once there; a handle is
    /// cached for an identity exactly while that identity has been resumed
    /// at least once and has not completed (so every waiting task has one).
    pub open spec fn wf(&self) -> bool {
        &&& distinct_ids(self.ready())
        &&& distinct_ids(self.waiting())
        &&& disjoint_ids(self.ready(), self.waiting())
        &&& self.cache_ids().no_duplicates()
        &&& forall|id: TaskId|
            contains_id(self.waiting(), id) ==> self.cache_ids().contains(id)
        &&& forall|id: TaskId|
            self.cache_ids().contains(id) ==> contains_id(self.ready(), id) || contains_id(
                self.waiting(),
                id,
            )
        &&& forall|id: TaskId| self.cache_ids().contains(id) ==> self.resumed_log().contains(id)
        &&& self.outcome_log().len() == self.resumed_log().len()
    }

    /// A scheduler with no tasks whose wake queue buffers at most
    /// `wake_capacity` pending wakes.
    pub fn with_capacity(wake_capacity: usize) -> (e: Executor<C>)
        requires
            wake_capacity >= 1,
        ensures
            e.wf(),
            e.ready().len() == 0,
            e.waiting().len() == 0,
            e.cache_ids().len() == 0,
            e.resumed_log().len() == 0,
            e.outcome_log().len() == 0,
    {
        let (sender, receiver) = new_idle_signal();
        let e = Executor {
            task_queue: Vec::new(),
            waiting_tasks: Vec::new(),
            wake_queue: Arc::new(new_wake_queue(wake_capacity)),
            waker_cache: Vec::new(),
            wake_chan_sender: sender,
            wake_chan_receiver: receiver,
            wake_capacity,
            resumed: Ghost(Seq::empty()),
            outcomes: Ghost(Seq::empty()),
        };
        proof {
            assert(ids_of(e.ready()) =~= Seq::<TaskId>::empty());
            assert(ids_of(e.waiting()) =~= Seq::<TaskId>::empty());
            assert(e.cache_ids() =~= Seq::<TaskId>::empty());
        }
        e
    }

    /// A scheduler with no tasks and the default wake-queue capacity.
    pub fn new() -> (e: Executor<C>)
        ensures
            e.wf(),
            e.ready().len() == 0,
            e.waiting().len() == 0,
            e.cache_ids().len() == 0,
            e.resumed_log().len() == 0,
            e.outcome_log().len() == 0,
    {
        Executor::with_capacity(DEFAULT_WAKE_CAPACITY)
    }

    /// Registers a task: appends it to the ready queue. The task's identity
    /// must be fresh for this scheduler.
    pub fn spawn(&mut self, task: Task<C>)
        requires
            old(self).wf(),
            !contains_id(old(self).ready(), task.spec_id()),
            !contains_id(old(self).waiting(), task.spec_id()),
        ensures
            final(self).wf(),
            final(self).ready() == old(self).ready().push(task),
            final(self).waiting() == old(self).waiting(),
            final(self).cache() == old(self).cache(),
            final(self).resumed_log() == old(self).resumed_log(),
            final(self).outcome_log() == old(self).outcome_log(),
    {
        proof {
            lemma_ids_push(old(self).ready(), task);
        }
        self.task_queue.push(task);
    }

    /// Where in the waiting set the task with identity `id` stands, if it is
    /// waiting at all.
    fn waiting_position(&self, id: TaskId) -> (r: Option<usize>)
        ensures
            match r {
                Some(i) => i < self.waiting().len() && self.waiting()[i as int].spec_id() == id
                    && (forall|j: int| 0 <= j < i ==> self.waiting()[j].spec_id() != id),
                None => !contains_id(self.waiting(), id),
            },
    {
        let n = self.waiting_tasks.len();
        let mut i: usize = 0;
        while i < n
            invariant
                i <= n,
                n == self.waiting().len(),
                forall|j: int| 0 <= j < i ==> self.waiting()[j].spec_id() != id,
            decreases n - i,
        {
            if self.waiting_tasks[i].id() == id {
                return Some(i);
            }
            i = i + 1;
        }
        None
    }

    /// Applies one wake signal for `id`: when a task with that identity is
    /// waiting, it moves to the back of the ready queue; a signal for any
    /// other identity — already ready, mid-resume, or long completed —
    /// changes nothing.
    pub fn wake_one(&mut self, id: TaskId)
        requires
            old(self).wf(),
        ensures
            final(self).wf(),
            ({
                let (r2, w2) = wake_step(old(self).ready(), old(self).waiting(), id);
                final(self).ready() == r2 && final(self).waiting() == w2
            }),
            final(self).cache() == old(self).cache(),
            final(self).resumed_log() == old(self).resumed_log(),
            final(self).outcome_log() == old(self).outcome_log(),
    {
        proof {
            ids_of(old(self).waiting()).index_of_first_ensures(id);
        }
        match self.waiting_position(id) {
            None => {},
            Some(i) => {
                proof {
                    let ids = ids_of(old(self).waiting());
                    assert(ids[i as int] == id);
                    assert(ids.contains(id));
                    let first = ids.index_of_first(id)->Some_0;
                    assert(ids[first] == id);
                    assert(first == i as int);
                    lemma_ids_remove(old(self).waiting(), i as int);
                    lemma_ids_push(old(self).ready(), old(self).waiting()[i as int]);
                }
                let task = self.waiting_tasks.remove(i);
                self.task_queue.push(task);
                proof {
                    let moved = old(self).waiting()[i as int];
                    assert forall|x: TaskId|
                        contains_id(self.ready(), x) implies !contains_id(
                        self.waiting(),
                        x,
                    ) by {
                        if x == moved.spec_id() {
                            assert(!contains_id(self.waiting(), x));
                        } else {
                            assert(contains_id(old(self).ready(), x));
                        }
                    }
                    assert forall|x: TaskId|
                        self.cache_ids().contains(x) implies contains_id(self.ready(), x)
                        || contains_id(self.waiting(), x) by {
                        if contains_id(old(self).waiting(), x) && !contains_id(
                            self.waiting(),
                            x,
                        ) {
                            let j = choose|j: int|
                                0 <= j < old(self).waiting().len() && ids_of(
                                    old(self).waiting(),
                                )[j] == x;
                            if j != i as int {
                                assert(self.waiting().contains(old(self).waiting()[j]));
                                let k = choose|k: int|
                                    0 <= k < self.waiting().len() && self.waiting()[k] == old(
                                        self,
                                    ).waiting()[j];
                                assert(ids_of(self.waiting())[k] == x);
                            }
                            assert(j == i as int);
                            assert(contains_id(self.ready(), x));
                        }
                    }
                }
            },
        }
    }

    /// Drains the wake queue without blocking and moves each woken task that
    /// is actually waiting to the back of the ready queue. At most one
    /// queue's worth of signals is drained per call, so a flood of wakes
    /// from other threads cannot keep the drain spinning; whatever remains
    /// is picked up by the next pass. No task is created or lost: the ready
    /// queue grows only by formerly waiting tasks, in place behind the tasks
    /// already ready, and every task stays in exactly one of the two.
    pub fn wake_tasks(&mut self)
        requires
            old(self).wf(),
        ensures
            final(self).wf(),
            final(self).cache() == old(self).cache(),
            final(self).resumed_log() == old(self).resumed_log(),
            final(self).outcome_log() == old(self).outcome_log(),
            final(self).ready().len() >= old(self).ready().len(),
            forall|j: int|
                0 <= j < old(self).ready().len() ==> final(self).ready()[j] == old(self).ready()[j],
            forall|j: int|
                old(self).ready().len() <= j < final(self).ready().len() ==> old(
                    self,
                ).waiting().contains(final(self).ready()[j]),
            forall|j: int|
                0 <= j < final(self).waiting().len() ==> old(self).waiting().contains(
                    final(self).waiting()[j],
                ),
            forall|j: int|
                0 <= j < old(self).waiting().len() ==> final(self).waiting().contains(
                    old(self).waiting()[j],
                ) || final(self).ready().contains(old(self).waiting()[j]),
    {
        let cap = self.wake_capacity;
        let mut drained: usize = 0;
        let mut empty_seen = false;
        while !empty_seen && drained < cap
            invariant
                self.wf(),
                self.cache() == old(self).cache(),
                self.resumed_log() == old(self).resumed_log(),
                self.outcome_log() == old(self).outcome_log(),
                self.ready().len() >= old(self).ready().len(),
                forall|j: int|
                    0 <= j < old(self).ready().len() ==> self.ready()[j] == old(self).ready()[j],
                forall|j: int|
                    old(self).ready().len() <= j < self.ready().len() ==> old(
                        self,
                    ).waiting().contains(self.ready()[j]),
                forall|j: int|
                    0 <= j < self.waiting().len() ==> old(self).waiting().contains(
                        self.waiting()[j],
                    ),
                forall|j: int|
                    0 <= j < old(self).waiting().len() ==> self.waiting().contains(
                        old(self).waiting()[j],
                    ) || self.ready().contains(old(self).waiting()[j]),
                drained <= cap,
            decreases cap - drained + (if empty_seen {
                0int
            } else {
                1int
            }),
        {
            match wake_queue_pop(&self.wake_queue) {
                None => {
                    empty_seen = true;
                },
                Some(raw) => {
                    let id = TaskId(raw);
                    let ghost prev = *self;
                    proof {
                        ids_of(prev.waiting()).index_of_first_ensures(id);
                    }
                    self.wake_one(id);
                    proof {
                        if ids_of(prev.waiting()).index_of_first(id) is Some {
                            let i = ids_of(prev.waiting()).index_of_first(id)->Some_0;
                            let moved = prev.waiting()[i];
                            prev.waiting().remove_ensures(i);
                            lemma_ids_remove(prev.waiting(), i);
                            assert(self.ready()[prev.ready().len() as int] == moved);
                            assert forall|j: int|
                                0 <= j < self.waiting().len() implies old(
                                self,
                            ).waiting().contains(self.waiting()[j]) by {
                                if j < i {
                                    assert(self.waiting()[j] == prev.waiting()[j]);
                                } else {
                                    assert(self.waiting()[j] == prev.waiting()[j + 1]);
                                }
                            }
                            assert forall|j: int|
                                0 <= j < old(self).waiting().len() implies self.waiting().contains(
                                old(self).waiting()[j],
                            ) || self.ready().contains(old(self).waiting()[j]) by {
                                let t = old(self).waiting()[j];
                                if prev.waiting().contains(t) {
                                    let k = choose|k: int|
                                        0 <= k < prev.waiting().len() && prev.waiting()[k] == t;
                                    if k == i {
                                        assert(self.ready()[prev.ready().len() as int] == t);
                                    } else {
                                        assert(prev.waiting().remove(i).contains(t));
                                    }
                                } else {
                                    let k = choose|k: int|
                                        0 <= k < prev.ready().len() && prev.ready()[k] == t;
                                    assert(self.ready()[k] == t);
                                }
                            }
                        }
                    }
                    drained = drained + 1;
                },
            }
        }
    }

    /// Number of tasks due to be resumed this pass.
    pub fn ready_len(&self) -> (n: usize)
        ensures
            n == self.ready().len(),
    {
        self.task_queue.len()
    }

    /// Number of suspended tasks.
    pub fn waiting_len(&self) -> (n: usize)
        ensures
            n == self.waiting().len(),
    {
        self.waiting_tasks.len()
    }

    /// Whether a task with identity `id` is suspended.
    pub fn waiting_contains(&self, id: TaskId) -> (r: bool)
        ensures
            r == contains_id(self.waiting(), id),
    {
        match self.waiting_position(id) {
            Some(i) => {
                proof {
                    assert(ids_of(self.waiting())[i as int] == id);
                }
                true
            },
            None => false,
        }
    }

    /// The cached resumption handle for `id`, cloned — present exactly while
    /// `id` has been resumed at least once and has not completed. An
    /// embedding reactor can hold it to wake the task later.
    pub fn handle_for(&self, id: TaskId) -> (r: Option<ResumeHandle>)
        ensures
            r.is_some() == self.cache_ids().contains(id),
            r matches Some(h) ==> h.spec_id() == id,
    {
        match self.cache_position(id) {
            Some(i) => {
                proof {
                    assert(self.cache_ids()[i as int] == id);
                }
                Some(self.waker_cache[i].clone())
            },
            None => None,
        }
    }

    /// Blocks on the idle signal when the wake queue looks empty, so the
    /// thread does not spin while no task can make progress; any wake
    /// invocation delivers the signal and unblocks it. Scheduler state is
    /// untouched.
    pub fn sleep_if_idle(&self) {
        if wake_queue_is_empty(&self.wake_queue) {
            idle_wait(&self.wake_chan_receiver);
        }
    }

    /// Where in the cache the handle for identity `id` stands, if one is
    /// cached at all.
    fn cache_position(&self, id: TaskId) -> (r: Option<usize>)
        ensures
            match r {
                Some(i) => i < self.cache_ids().len() && self.cache_ids()[i as int] == id,
                None => !self.cache_ids().contains(id),
            },
    {
        let n = self.waker_cache.len();
        let mut i: usize = 0;
        while i < n
            invariant
                i <= n,
                n == self.cache_ids().len(),
                forall|j: int| 0 <= j < i ==> self.cache_ids()[j] != id,
            decreases n - i,
        {
            if self.waker_cache[i].id() == id {
                return Some(i);
            }
            i = i + 1;
        }
        None
    }
}

impl<C: crate::task::Compute> Executor<C> {
    /// One pass over the ready queue: resumes every ready task once, front
    /// to back — the resume log extends by exactly the ready identities, in
    /// spawn order. A task that completes is dropped and its cached handle
    /// evicted; one that suspends joins the waiting set, behind the tasks
    /// already waiting, which stay untouched. Its handle is fetched from the
    /// cache, or created and cached on the task's first resume.
    pub fn run_ready_tasks(&mut self)
        requires
            old(self).wf(),
        ensures
            final(self).wf(),
            final(self).ready().len() == 0,
            final(self).resumed_log() == old(self).resumed_log() + ids_of(old(self).ready()),
            final(self).outcome_log().len() == old(self).outcome_log().len() + old(
                self,
            ).ready().len(),
            final(self).outcome_log().take(old(self).outcome_log().len() as int) == old(
                self,
            ).outcome_log(),
            ids_of(final(self).waiting()) == ids_of(old(self).waiting()) + kept_ids(
                ids_of(old(self).ready()),
                final(self).outcome_log().skip(old(self).outcome_log().len() as int),
            ),
            forall|i: int|
                #![trigger ids_of(old(self).ready())[i]]
                0 <= i < old(self).ready().len() ==> ({
                    let tid = ids_of(old(self).ready())[i];
                    let oc = final(self).outcome_log()[old(self).outcome_log().len() + i];
                    &&& (oc is Suspended ==> contains_id(final(self).waiting(), tid)
                        && final(self).cache_ids().contains(tid))
                    &&& (oc is Complete ==> !contains_id(final(self).waiting(), tid)
                        && !final(self).cache_ids().contains(tid))
                }),
            forall|x: TaskId|
                !ids_of(old(self).ready()).contains(x) ==> (final(self).cache_ids().contains(x)
                    <==> old(self).cache_ids().contains(x)),
            forall|h: ResumeHandle|
                old(self).cache().contains(h) && final(self).cache_ids().contains(h.spec_id())
                    ==> final(self).cache().contains(h),
            final(self).waiting().len() >= old(self).waiting().len(),
            forall|j: int|
                0 <= j < old(self).waiting().len() ==> final(self).waiting()[j] == old(
                    self,
                ).waiting()[j],
            forall|j: int|
                old(self).waiting().len() <= j < final(self).waiting().len() ==> contains_id(
                    old(self).ready(),
                    final(self).waiting()[j].spec_id(),
                ),
    {
        let ghost mut k: int = 0;
        let ghost pass_ids = ids_of(old(self).ready());
        let ghost base = old(self).outcome_log().len() as int;
        proof {
            assert(self.ready() =~= old(self).ready().skip(0));
            assert(self.resumed_log() =~= old(self).resumed_log() + ids_of(
                old(self).ready(),
            ).take(0));
            assert(self.outcome_log().take(base) =~= old(self).outcome_log());
            assert(ids_of(self.waiting()) =~= ids_of(old(self).waiting()) + kept_ids(
                pass_ids.take(0),
                self.outcome_log().skip(base),
            ));
        }
        while self.task_queue.len() != 0
            invariant
                old(self).wf(),
                self.wf(),
                0 <= k <= old(self).ready().len(),
                pass_ids == ids_of(old(self).ready()),
                base == old(self).outcome_log().len() as int,
                self.ready() == old(self).ready().skip(k),
                self.resumed_log() == old(self).resumed_log() + pass_ids.take(k),
                self.outcome_log().len() == base + k,
                self.outcome_log().take(base) == old(self).outcome_log(),
                ids_of(self.waiting()) == ids_of(old(self).waiting()) + kept_ids(
                    pass_ids.take(k),
                    self.outcome_log().skip(base),
                ),
                forall|i: int|
                    #![trigger pass_ids[i]]
                    0 <= i < k ==> ({
                        let tid = pass_ids[i];
                        let oc = self.outcome_log()[base + i];
                        &&& (oc is Suspended ==> contains_id(self.waiting(), tid)
                            && self.cache_ids().contains(tid))
                        &&& (oc is Complete ==> !contains_id(self.waiting(), tid)
                            && !self.cache_ids().contains(tid))
                    }),
                forall|x: TaskId|
                    !pass_ids.take(k).contains(x) ==> (self.cache_ids().contains(x) <==> old(
                        self,
                    ).cache_ids().contains(x)),
                forall|h: ResumeHandle|
                    old(self).cache().contains(h) && self.cache_ids().contains(h.spec_id())
                        ==> self.cache().contains(h),
                self.waiting().len() >= old(self).waiting().len(),
                forall|j: int|
                    0 <= j < old(self).waiting().len() ==> self.waiting()[j] == old(
                        self,
                    ).waiting()[j],
                forall|j: int|
                    old(self).waiting().len() <= j < self.waiting().len() ==> contains_id(
                        old(self).ready(),
                        self.waiting()[j].spec_id(),
                    ),
            decreases self.task_queue.len(),
        {
            let ghost prev = *self;
            let mut task = self.task_queue.remove(0);
            let id = task.id();
            proof {
                prev.ready().remove_ensures(0);
                lemma_ids_remove(prev.ready(), 0);
                lemma_seq_remove(ids_of(prev.ready()), 0);
                assert(prev.ready()[0] == old(self).ready()[k]);
                assert(self.ready() =~= old(self).ready().skip(k + 1));
                assert(ids_of(prev.ready())[0] == id);
                assert(contains_id(prev.ready(), id));
                assert(pass_ids[k] == id);
                assert(pass_ids.no_duplicates());
                assert forall|i: int| 0 <= i < k implies pass_ids[i] != id by {
                    assert(pass_ids[i] != pass_ids[k]);
                }
                assert(!pass_ids.take(k).contains(id)) by {
                    if pass_ids.take(k).contains(id) {
                        let j = choose|j: int| 0 <= j < k && pass_ids.take(k)[j] == id;
                        assert(pass_ids[j] == id);
                    }
                }
                assert(!contains_id(prev.waiting(), id));
            }
            let pos = match self.cache_position(id) {
                Some(p) => {
                    proof {
                        assert(self.cache_ids()[p as int] == id);
                        assert(self.cache_ids().contains(id));
                        assert(forall|hh: ResumeHandle|
                            prev.cache().contains(hh) ==> self.cache().contains(hh));
                    }
                    p
                },
                None => {
                    let h = ResumeHandle::attached(id, &self.wake_queue, &self.wake_chan_sender);
                    let ghost gh = h;
                    proof {
                        lemma_seq_push(prev.cache_ids(), id);
                        lemma_seq_push(prev.cache(), gh);
                    }
                    self.waker_cache.push(h);
                    proof {
                        assert(self.cache() == prev.cache().push(gh));
                        assert(self.cache_ids() =~= prev.cache_ids().push(id));
                        assert(forall|hh: ResumeHandle|
                            prev.cache().contains(hh) ==> self.cache().contains(hh));
                    }
                    self.waker_cache.len() - 1
                },
            };
            let ghost mid = *self;
            proof {
                assert(pos < mid.cache_ids().len() && mid.cache_ids()[pos as int] == id);
                assert(mid.cache_ids().no_duplicates());
                assert(forall|x: TaskId|
                    mid.cache_ids().contains(x) <==> (prev.cache_ids().contains(x) || x == id));
            }
            let outcome = task.poll(&self.waker_cache[pos]);
            self.resumed = Ghost(self.resumed@.push(id));
            self.outcomes = Ghost(self.outcomes@.push(outcome));
            proof {
                lemma_seq_push(prev.resumed_log(), id);
                assert(self.outcome_log().take(base) =~= prev.outcome_log().take(base));
                assert(self.outcome_log().skip(base) =~= prev.outcome_log().skip(base).push(
                    outcome,
                ));
                assert(self.outcome_log()[base + k] == outcome);
            }
            match outcome {
                ResumeOutcome::Complete => {
                    let _ = self.waker_cache.remove(pos);
                    proof {
                        mid.waker_cache@.remove_ensures(pos as int);
                        mid.cache_ids().remove_ensures(pos as int);
                        assert(self.cache_ids() =~= mid.cache_ids().remove(pos as int));
                        lemma_seq_remove(mid.cache_ids(), pos as int);
                        assert(!self.cache_ids().contains(id));
                        assert forall|x: TaskId|
                            self.cache_ids().contains(x) implies contains_id(self.ready(), x)
                            || contains_id(self.waiting(), x) by {
                            assert(mid.cache_ids().contains(x));
                            assert(x != id);
                            assert(prev.cache_ids().contains(x));
                            if contains_id(prev.ready(), x) {
                                let m = choose|m: int|
                                    0 <= m < prev.ready().len() && ids_of(prev.ready())[m] == x;
                                assert(m != 0);
                                assert(ids_of(self.ready()).contains(x));
                            }
                        }
                        assert forall|x: TaskId|
                            contains_id(self.waiting(), x) implies self.cache_ids().contains(
                            x,
                        ) by {
                            assert(prev.cache_ids().contains(x));
                            let m = choose|m: int|
                                0 <= m < prev.cache_ids().len() && prev.cache_ids()[m] == x;
                            assert(mid.cache_ids().contains(x));
                            assert(x != id);
                            let m2 = choose|m2: int|
                                0 <= m2 < mid.cache_ids().len() && mid.cache_ids()[m2] == x;
                            assert(m2 != pos as int);
                            assert(self.cache_ids().contains(mid.cache_ids()[m2]));
                        }
                        assert forall|x: TaskId|
                            x != id implies (self.cache_ids().contains(x)
                            <==> prev.cache_ids().contains(x)) by {
                            if self.cache_ids().contains(x) {
                                assert(mid.cache_ids().contains(x));
                            }
                            if prev.cache_ids().contains(x) {
                                assert(mid.cache_ids().contains(x));
                                let j = choose|j: int|
                                    0 <= j < mid.cache_ids().len() && mid.cache_ids()[j] == x;
                                assert(j != pos as int);
                                assert(self.cache_ids().contains(mid.cache_ids()[j]));
                            }
                        }
                        lemma_seq_remove(mid.cache(), pos as int);
                        assert forall|hh: ResumeHandle|
                            prev.cache().contains(hh) && self.cache_ids().contains(hh.spec_id())
                            implies self.cache().contains(hh) by {
                            assert(hh.spec_id() != id);
                            assert(mid.cache().contains(hh));
                            let j = choose|j: int|
                                0 <= j < mid.cache().len() && mid.cache()[j] == hh;
                            assert(handle_ids(mid.cache())[j] == hh.spec_id());
                            assert(j != pos as int);
                            assert(self.cache().contains(mid.cache()[j]));
                        }
                    }
                },
                ResumeOutcome::Suspended => {
                    proof {
                        assert(!contains_id(prev.waiting(), id));
                        lemma_ids_push(prev.waiting(), task);
                    }
                    self.waiting_tasks.push(task);
                    proof {
                        assert forall|x: TaskId|
                            contains_id(self.ready(), x) implies !contains_id(
                            self.waiting(),
                            x,
                        ) by {
                            assert(contains_id(prev.ready(), x));
                            assert(x != id);
                        }
                        assert forall|x: TaskId|
                            self.cache_ids().contains(x) implies contains_id(self.ready(), x)
                            || contains_id(self.waiting(), x) by {
                            if x != id {
                                assert(prev.cache_ids().contains(x));
                                if contains_id(prev.ready(), x) {
                                    let m = choose|m: int|
                                        0 <= m < prev.ready().len() && ids_of(prev.ready())[m]
                                            == x;
                                    assert(m != 0);
                                    assert(ids_of(self.ready()).contains(x));
                                }
                            }
                        }
                        assert(contains_id(old(self).ready(), id)) by {
                            assert(ids_of(old(self).ready())[k] == id);
                        }
                        assert(self.cache_ids().contains(id)) by {
                            assert(self.cache_ids()[pos as int] == id);
                        }
                        assert(contains_id(self.waiting(), id));
                        assert(forall|x: TaskId|
                            x != id ==> (self.cache_ids().contains(x)
                                <==> prev.cache_ids().contains(x)));
                        assert(forall|hh: ResumeHandle|
                            prev.cache().contains(hh) ==> self.cache().contains(hh));
                    }
                },
            }
            proof {
                assert(ids_of(old(self).ready()).take(k + 1) =~= ids_of(old(self).ready()).take(
                    k,
                ).push(id));
                assert(self.resumed_log() =~= old(self).resumed_log() + ids_of(
                    old(self).ready(),
                ).take(k + 1));
                lemma_kept_ids_push(pass_ids.take(k), prev.outcome_log().skip(base), id, outcome);
                if outcome is Suspended {
                    assert(ids_of(self.waiting()) == ids_of(prev.waiting()).push(id));
                    assert(ids_of(old(self).waiting()) + kept_ids(
                        pass_ids.take(k),
                        prev.outcome_log().skip(base),
                    ).push(id) =~= (ids_of(old(self).waiting()) + kept_ids(
                        pass_ids.take(k),
                        prev.outcome_log().skip(base),
                    )).push(id));
                    assert(ids_of(self.waiting()) == ids_of(old(self).waiting()) + kept_ids(
                        pass_ids.take(k + 1),
                        self.outcome_log().skip(base),
                    ));
                } else {
                    assert(self.waiting() == prev.waiting());
                    assert(ids_of(self.waiting()) == ids_of(old(self).waiting()) + kept_ids(
                        pass_ids.take(k + 1),
                        self.outcome_log().skip(base),
                    ));
                }
                assert forall|i: int|
                    #![trigger pass_ids[i]]
                    0 <= i < k + 1 implies ({
                        let tid = pass_ids[i];
                        let oc = self.outcome_log()[base + i];
                        &&& (oc is Suspended ==> contains_id(self.waiting(), tid)
                            && self.cache_ids().contains(tid))
                        &&& (oc is Complete ==> !contains_id(self.waiting(), tid)
                            && !self.cache_ids().contains(tid))
                    }) by {
                    let tid = pass_ids[i];
                    if i < k {
                        assert(tid != id);
                        assert(self.outcome_log()[base + i] == prev.outcome_log()[base + i]);
                        if prev.outcome_log()[base + i] is Suspended {
                            assert(contains_id(prev.waiting(), tid));
                            assert(prev.cache_ids().contains(tid));
                            assert(contains_id(self.waiting(), tid)) by {
                                let m = choose|m: int|
                                    0 <= m < prev.waiting().len() && ids_of(prev.waiting())[m]
                                        == tid;
                                assert(ids_of(self.waiting())[m] == tid);
                            }
                        } else {
                            assert(!contains_id(prev.waiting(), tid));
                            assert(!prev.cache_ids().contains(tid));
                            if contains_id(self.waiting(), tid) {
                                assert(ids_of(self.waiting()) == ids_of(prev.waiting()).push(id)
                                    || self.waiting() == prev.waiting());
                                if ids_of(self.waiting()) == ids_of(prev.waiting()).push(id) {
                                    let m = choose|m: int|
                                        0 <= m < ids_of(self.waiting()).len() && ids_of(
                                            self.waiting(),
                                        )[m] == tid;
                                    if m < ids_of(prev.waiting()).len() {
                                        assert(ids_of(prev.waiting())[m] == tid);
                                    }
                                }
                            }
                        }
                    } else {
                        assert(self.outcome_log()[base + k] == outcome);
                    }
                }
                assert forall|x: TaskId|
                    !pass_ids.take(k + 1).contains(x) implies (self.cache_ids().contains(x)
                    <==> old(self).cache_ids().contains(x)) by {
                    assert(pass_ids.take(k + 1)[k] == id);
                    assert(x != id);
                    assert(!pass_ids.take(k).contains(x)) by {
                        if pass_ids.take(k).contains(x) {
                            let j = choose|j: int| 0 <= j < k && pass_ids.take(k)[j] == x;
                            assert(pass_ids.take(k + 1)[j] == x);
                        }
                    }
                }
                assert forall|h2: ResumeHandle|
                    old(self).cache().contains(h2) && self.cache_ids().contains(h2.spec_id())
                    implies self.cache().contains(h2) by {
                    let x = h2.spec_id();
                    if x == id {
                        let j = choose|j: int|
                            0 <= j < old(self).cache().len() && old(self).cache()[j] == h2;
                        assert(handle_ids(old(self).cache())[j] == x);
                        assert(old(self).cache_ids().contains(x));
                        assert(prev.cache_ids().contains(x));
                        assert(prev.cache().contains(h2));
                    } else {
                        assert(prev.cache_ids().contains(x));
                        assert(prev.cache().contains(h2));
                    }
                }
                assert forall|x: TaskId|
                    self.cache_ids().contains(x) implies self.resumed_log().contains(x) by {
                    if x != id {
                        assert(prev.cache_ids().contains(x));
                        assert(prev.resumed_log().contains(x));
                        let m = choose|m: int|
                            0 <= m < prev.resumed_log().len() && prev.resumed_log()[m] == x;
                        assert(self.resumed_log()[m] == x);
                    } else {
                        assert(self.resumed_log()[self.resumed_log().len() - 1] == id);
                    }
                }
                k = k + 1;
            }
        }
        proof {
            assert(k == old(self).ready().len());
            assert(ids_of(old(self).ready()).take(k) =~= ids_of(old(self).ready()));
        }
    }

    /// The drive loop: drain pending wakes, resume everything ready, and —
    /// while work might still arrive — block on the idle signal before going
    /// round again. Returns `true` once the waiting set and the ready queue
    /// are both empty, and never earlier, so no suspended task that could
    /// still be woken is abandoned; returns `false` when `fuel` passes were
    /// spent and tasks are still waiting. The resume log only extends: every
    /// resume performed before this call stays recorded, in place. No task
    /// is invented: whatever is still held at the end was already ready or
    /// waiting at the call — so a scheduler holding nothing finishes at
    /// once — and when it finishes, every task it held has a resume recorded
    /// that reported completion.
    pub fn run(&mut self, fuel: u64) -> (finished: bool)
        requires
            old(self).wf(),
        ensures
            final(self).wf(),
            finished ==> final(self).waiting().len() == 0 && final(self).ready().len() == 0,
            !finished ==> final(self).waiting().len() != 0,
            old(self).ready().len() == 0 && old(self).waiting().len() == 0 ==> finished,
            forall|x: TaskId|
                contains_id(final(self).ready(), x) || contains_id(final(self).waiting(), x)
                    ==> contains_id(old(self).ready(), x) || contains_id(old(self).waiting(), x),
            finished ==> forall|x: TaskId|
                contains_id(old(self).ready(), x) || contains_id(old(self).waiting(), x)
                    ==> exists|i: int|
                    old(self).resumed_log().len() <= i < final(self).resumed_log().len()
                        && final(self).resumed_log()[i] == x
                        && final(self).outcome_log()[i] is Complete,
            final(self).resumed_log().len() >= old(self).resumed_log().len(),
            forall|j: int|
                0 <= j < old(self).resumed_log().len() ==> final(self).resumed_log()[j] == old(
                    self,
                ).resumed_log()[j],
            forall|j: int|
                old(self).resumed_log().len() <= j < final(self).resumed_log().len()
                    ==> contains_id(old(self).ready(), final(self).resumed_log()[j])
                    || contains_id(old(self).waiting(), final(self).resumed_log()[j]),
    {
        let ghost base_r = old(self).resumed_log().len() as int;
        let mut remaining = fuel;
        let mut finished = false;
        loop
            invariant_except_break
                self.wf(),
                !finished,
                base_r == old(self).resumed_log().len() as int,
                forall|x: TaskId|
                    contains_id(self.ready(), x) || contains_id(self.waiting(), x) ==> contains_id(
                        old(self).ready(),
                        x,
                    ) || contains_id(old(self).waiting(), x),
                forall|x: TaskId|
                    #![trigger contains_id(old(self).ready(), x)]
                    #![trigger contains_id(old(self).waiting(), x)]
                    contains_id(old(self).ready(), x) || contains_id(old(self).waiting(), x)
                        ==> contains_id(self.ready(), x) || contains_id(self.waiting(), x) || (
                    exists|i: int|
                        #![trigger self.resumed_log()[i]]
                        base_r <= i < self.resumed_log().len() && self.resumed_log()[i] == x
                            && self.outcome_log()[i] is Complete),
                self.resumed_log().len() >= old(self).resumed_log().len(),
                forall|j: int|
                    0 <= j < old(self).resumed_log().len() ==> self.resumed_log()[j] == old(
                        self,
                    ).resumed_log()[j],
                forall|j: int|
                    base_r <= j < self.resumed_log().len() ==> contains_id(
                        old(self).ready(),
                        self.resumed_log()[j],
                    ) || contains_id(old(self).waiting(), self.resumed_log()[j]),
            ensures
                self.wf(),
                finished ==> self.waiting().len() == 0 && self.ready().len() == 0,
                !finished ==> self.waiting().len() != 0,
                base_r == old(self).resumed_log().len() as int,
                forall|x: TaskId|
                    contains_id(self.ready(), x) || contains_id(self.waiting(), x) ==> contains_id(
                        old(self).ready(),
                        x,
                    ) || contains_id(old(self).waiting(), x),
                forall|x: TaskId|
                    #![trigger contains_id(old(self).ready(), x)]
                    #![trigger contains_id(old(self).waiting(), x)]
                    contains_id(old(self).ready(), x) || contains_id(old(self).waiting(), x)
                        ==> contains_id(self.ready(), x) || contains_id(self.waiting(), x) || (
                    exists|i: int|
                        #![trigger self.resumed_log()[i]]
                        base_r <= i < self.resumed_log().len() && self.resumed_log()[i] == x
                            && self.outcome_log()[i] is Complete),
                self.resumed_log().len() >= old(self).resumed_log().len(),
                forall|j: int|
                    0 <= j < old(self).resumed_log().len() ==> self.resumed_log()[j] == old(
                        self,
                    ).resumed_log()[j],
                forall|j: int|
                    base_r <= j < self.resumed_log().len() ==> contains_id(
                        old(self).ready(),
                        self.resumed_log()[j],
                    ) || contains_id(old(self).waiting(), self.resumed_log()[j]),
            decreases remaining,
        {
            let ghost entry = *self;
            self.wake_tasks();
            let ghost drained = *self;
            self.run_ready_tasks();
            proof {
                assert forall|j: int|
                    0 <= j < old(self).resumed_log().len() implies self.resumed_log()[j] == old(
                    self,
                ).resumed_log()[j] by {
                    assert(self.resumed_log()[j] == drained.resumed_log()[j]);
                }
                assert forall|x: TaskId|
                    contains_id(self.ready(), x) || contains_id(self.waiting(), x) implies
                    contains_id(entry.ready(), x) || contains_id(entry.waiting(), x) by {
                    assert(self.ready().len() == 0);
                    if contains_id(self.waiting(), x) {
                        let j = choose|j: int|
                            0 <= j < ids_of(self.waiting()).len() && ids_of(self.waiting())[j]
                                == x;
                        if j < drained.waiting().len() {
                            assert(self.waiting()[j] == drained.waiting()[j]);
                            assert(ids_of(drained.waiting())[j] == x);
                            assert(entry.waiting().contains(drained.waiting()[j]));
                            let m = choose|m: int|
                                0 <= m < entry.waiting().len() && entry.waiting()[m]
                                    == drained.waiting()[j];
                            assert(ids_of(entry.waiting())[m] == x);
                        } else {
                            assert(contains_id(drained.ready(), x));
                            let m = choose|m: int|
                                0 <= m < drained.ready().len() && ids_of(drained.ready())[m]
                                    == x;
                            if m < entry.ready().len() {
                                assert(drained.ready()[m] == entry.ready()[m]);
                                assert(ids_of(entry.ready())[m] == x);
                            } else {
                                assert(entry.waiting().contains(drained.ready()[m]));
                                let m2 = choose|m2: int|
                                    0 <= m2 < entry.waiting().len() && entry.waiting()[m2]
                                        == drained.ready()[m];
                                assert(ids_of(entry.waiting())[m2] == x);
                            }
                        }
                    }
                }
                assert forall|x: TaskId|
                    contains_id(old(self).ready(), x) || contains_id(old(self).waiting(), x)
                    implies contains_id(self.ready(), x) || contains_id(self.waiting(), x) || (
                exists|i: int|
                    #![trigger self.resumed_log()[i]]
                    base_r <= i < self.resumed_log().len() && self.resumed_log()[i] == x
                        && self.outcome_log()[i] is Complete) by {
                    if contains_id(entry.ready(), x) || contains_id(entry.waiting(), x) {
                        assert(contains_id(drained.ready(), x) || contains_id(
                            drained.waiting(),
                            x,
                        )) by {
                            if contains_id(entry.waiting(), x) {
                                let j = choose|j: int|
                                    0 <= j < entry.waiting().len() && ids_of(entry.waiting())[j]
                                        == x;
                                if drained.waiting().contains(entry.waiting()[j]) {
                                    let m = choose|m: int|
                                        0 <= m < drained.waiting().len() && drained.waiting()[m]
                                            == entry.waiting()[j];
                                    assert(ids_of(drained.waiting())[m] == x);
                                } else {
                                    assert(drained.ready().contains(entry.waiting()[j]));
                                    let m = choose|m: int|
                                        0 <= m < drained.ready().len() && drained.ready()[m]
                                            == entry.waiting()[j];
                                    assert(ids_of(drained.ready())[m] == x);
                                }
                            } else {
                                let j = choose|j: int|
                                    0 <= j < entry.ready().len() && ids_of(entry.ready())[j] == x;
                                assert(drained.ready()[j] == entry.ready()[j]);
                                assert(ids_of(drained.ready())[j] == x);
                            }
                        }
                        if contains_id(drained.waiting(), x) {
                            let j = choose|j: int|
                                0 <= j < drained.waiting().len() && ids_of(drained.waiting())[j]
                                    == x;
                            assert(self.waiting()[j] == drained.waiting()[j]);
                            assert(ids_of(self.waiting())[j] == x);
                        } else {
                            let m = choose|m: int|
                                0 <= m < drained.ready().len() && ids_of(drained.ready())[m] == x;
                            let oc = self.outcome_log()[drained.outcome_log().len() + m];
                            if oc is Suspended {
                                assert(contains_id(self.waiting(), x));
                            } else {
                                let i0 = drained.resumed_log().len() + m;
                                assert(self.resumed_log() == drained.resumed_log() + ids_of(
                                    drained.ready(),
                                ));
                                assert(self.resumed_log()[i0 as int] == x);
                                assert(self.outcome_log()[i0 as int] is Complete);
                                assert(base_r <= i0 < self.resumed_log().len());
                            }
                        }
                    } else {
                        let i = choose|i: int|
                            base_r <= i < entry.resumed_log().len() && entry.resumed_log()[i] == x
                                && entry.outcome_log()[i] is Complete;
                        assert(self.resumed_log() == drained.resumed_log() + ids_of(
                            drained.ready(),
                        ));
                        assert(self.resumed_log()[i] == x);
                        assert(self.outcome_log()[i] is Complete) by {
                            assert(self.outcome_log().take(
                                drained.outcome_log().len() as int,
                            ) == drained.outcome_log());
                            assert(self.outcome_log().take(drained.outcome_log().len() as int)[i]
                                == drained.outcome_log()[i]);
                        }
                    }
                }
                assert forall|j: int|
                    base_r <= j < self.resumed_log().len() implies contains_id(
                    old(self).ready(),
                    self.resumed_log()[j],
                ) || contains_id(old(self).waiting(), self.resumed_log()[j]) by {
                    assert(self.resumed_log() == drained.resumed_log() + ids_of(drained.ready()));
                    if j < drained.resumed_log().len() {
                        assert(self.resumed_log()[j] == drained.resumed_log()[j]);
                        assert(drained.resumed_log()[j] == entry.resumed_log()[j]);
                    } else {
                        let m = j - drained.resumed_log().len();
                        let x = self.resumed_log()[j];
                        assert(x == ids_of(drained.ready())[m]);
                        if m < entry.ready().len() {
                            assert(drained.ready()[m] == entry.ready()[m]);
                            assert(ids_of(entry.ready())[m] == x);
                        } else {
                            assert(entry.waiting().contains(drained.ready()[m]));
                            let m2 = choose|m2: int|
                                0 <= m2 < entry.waiting().len() && entry.waiting()[m2]
                                    == drained.ready()[m];
                            assert(ids_of(entry.waiting())[m2] == x);
                        }
                    }
                }
            }
            if self.waiting_len() == 0 {
                finished = true;
                break ;
            }
            if remaining == 0 {
                break ;
            }
            remaining = remaining - 1;
            self.sleep_if_idle();
        }
        proof {
            if self.waiting().len() != 0 {
                let x = ids_of(self.waiting())[0];
                assert(contains_id(self.waiting(), x));
                assert(contains_id(old(self).ready(), x) || contains_id(old(self).waiting(), x));
            }
            if finished {
                assert forall|x: TaskId|
                    contains_id(old(self).ready(), x) || contains_id(old(self).waiting(), x)
                    implies exists|i: int|
                    old(self).resumed_log().len() <= i < self.resumed_log().len()
                        && self.resumed_log()[i] == x && self.outcome_log()[i] is Complete by {
                    assert(!contains_id(self.ready(), x));
                    assert(!contains_id(self.waiting(), x));
                }
            }
        }
        finished
    }
}

/// Law: under the scheduler invariant, one wake signal re-queues at most one
/// task, exactly once per was-waiting transition. When `id` is waiting, the
/// first waiting task with that identity — and no other — is appended to the
/// ready queue and the identity leaves the waiting set; every identity stays
/// in at most one of the two queues, and at most once there, so a second
/// resumption of the same task is never put in flight. When `id` is not
/// waiting, nothing changes.
pub proof fn lemma_wake_requeues_at_most_once<C>(
    ready: Seq<Task<C>>,
    waiting: Seq<Task<C>>,
    id: TaskId,
)
    requires
        distinct_ids(ready),
        distinct_ids(waiting),
        disjoint_ids(ready, waiting),
    ensures
        ({
            let (r2, w2) = wake_step(ready, waiting, id);
            &&& distinct_ids(r2)
            &&& distinct_ids(w2)
            &&& disjoint_ids(r2, w2)
            &&& !contains_id(w2, id)
            &&& (contains_id(waiting, id) ==> r2.len() == ready.len() + 1
                && r2[ready.len() as int].spec_id() == id)
            &&& (!contains_id(waiting, id) ==> r2 == ready && w2 == waiting)
        }),
{
    ids_of(waiting).index_of_first_ensures(id);
    if ids_of(waiting).index_of_first(id) is Some {
        let i = ids_of(waiting).index_of_first(id)->Some_0;
        let moved = waiting[i];
        lemma_ids_remove(waiting, i);
        lemma_ids_push(ready, moved);
        let (r2, w2) = wake_step(ready, waiting, id);
        assert(contains_id(waiting, id));
        assert(!contains_id(ready, id));
        assert forall|x: TaskId| contains_id(r2, x) implies !contains_id(w2, x) by {
            if x == id {
                assert(!contains_id(w2, id));
            } else {
                assert(contains_id(ready, x));
                assert(!contains_id(waiting, x));
            }
        }
    }
}

/// Law (wake coalescing): two wake signals for the same identity in quick
/// succession have exactly the effect of one — the second finds the identity
/// no longer waiting and changes nothing, so the task is moved to ready, and
/// hence resumed, once.
pub proof fn lemma_wake_coalesces<C>(ready: Seq<Task<C>>, waiting: Seq<Task<C>>, id: TaskId)
    requires
        distinct_ids(ready),
        distinct_ids(waiting),
        disjoint_ids(ready, waiting),
    ensures
        ({
            let (r2, w2) = wake_step(ready, waiting, id);
            wake_step(r2, w2, id) == (r2, w2)
        }),
{
    lemma_wake_requeues_at_most_once(ready, waiting, id);
    let (r2, w2) = wake_step(ready, waiting, id);
    lemma_stale_wake_harmless(r2, w2, id);
}

/// Law (stale wake is harmless): a wake signal for an identity with no
/// waiting task — one still ready, mid-resume, or long completed — leaves
/// the ready queue and the waiting set exactly as they were.
pub proof fn lemma_stale_wake_harmless<C>(ready: Seq<Task<C>>, waiting: Seq<Task<C>>, id: TaskId)
    requires
        !contains_id(waiting, id),
    ensures
        wake_step(ready, waiting, id) == (ready, waiting),
{
    ids_of(waiting).index_of_first_ensures(id);
}

} // verus!
