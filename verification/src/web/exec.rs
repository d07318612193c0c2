//! A single-threaded executor's bookkeeping, because a browser has no other
//! kind of thread.
//!
//! A task is handed over, polled once, and polled again whenever something
//! wakes it. Polling can wake a task again from inside its own poll, so a
//! wake only records the task as ready, and one drain at a time takes ready
//! tasks out, hands each to the poller and takes it back if it is not done.
//! The polling itself happens outside: this module decides which task is
//! next, what is kept, and who is woken.

use vstd::prelude::*;
use std::collections::HashMap;

verus! {

broadcast use vstd::std_specs::hash::group_hash_axioms;

/// Identifies a spawned task.
#[derive(Debug, Clone, Copy, PartialEq, Eq, Hash, Structural)]
pub struct TaskId(pub u64);

/// Tasks that have not finished, the ones woken since they were last
/// polled, and whether a drain is under way. `F` is the task itself.
pub struct Scheduler<F> {
    tasks: HashMap<u64, F>,
    ready: Vec<u64>,
    draining: bool,
    next: u64,
}

/// A scheduler as values.
pub struct SchedulerView<F> {
    pub tasks: Map<u64, F>,
    pub ready: Seq<u64>,
    pub draining: bool,
    pub next: u64,
}

impl<F> View for Scheduler<F> {
    type V = SchedulerView<F>;

    closed spec fn view(&self) -> SchedulerView<F> {
        SchedulerView {
            tasks: self.tasks@,
            ready: self.ready@,
            draining: self.draining,
            next: self.next,
        }
    }
}

/// The id after `id`; the counter wraps as an atomic counter does.
pub open spec fn next_id(id: u64) -> u64 {
    if id == u64::MAX {
        0
    } else {
        (id + 1) as u64
    }
}

/// The next task to poll: ready ids are taken from the most recent, and an
/// id whose task already finished is passed over. Returns what is left of
/// the ready list, and the id found, if any.
pub open spec fn next_ready_spec<F>(tasks: Map<u64, F>, ready: Seq<u64>) -> (Seq<u64>, Option<u64>)
    decreases ready.len(),
{
    if ready.len() == 0 {
        (ready, None)
    } else if tasks.contains_key(ready.last()) {
        (ready.drop_last(), Some(ready.last()))
    } else {
        next_ready_spec(tasks, ready.drop_last())
    }
}

impl<F> Scheduler<F> {
    pub fn new() -> (s: Self)
        ensures
            s@.tasks == Map::<u64, F>::empty(),
            s@.ready == Seq::<u64>::empty(),
            !s@.draining,
            s@.next == 1,
    {
        Scheduler { tasks: HashMap::new(), ready: Vec::new(), draining: false, next: 1 }
    }

    /// Record that task `id` was woken.
    pub fn wake(&mut self, id: TaskId)
        ensures
            final(self)@ == (SchedulerView { ready: old(self)@.ready.push(id.0), ..old(self)@ }),
    {
        self.ready.push(id.0);
    }

    /// Start a drain, unless one is already under way. `true`: the caller
    /// owns the drain and must run it to the end; `false`: an outer drain
    /// will pick the work up.
    pub fn begin_drain(&mut self) -> (owns: bool)
        ensures
            owns == !old(self)@.draining,
            final(self)@ == (SchedulerView { draining: true, ..old(self)@ }),
    {
        let owns = !self.draining;
        self.draining = true;
        owns
    }

    /// Take out the next task to poll. When none is left, the drain is over.
    pub fn next_ready(&mut self) -> (r: Option<(TaskId, F)>)
        ensures
            ({
                let (rest, id) = next_ready_spec(old(self)@.tasks, old(self)@.ready);
                &&& final(self)@.ready == rest
                &&& final(self)@.next == old(self)@.next
                &&& match r {
                    Some((t, f)) => {
                        &&& id == Some(t.0)
                        &&& f == old(self)@.tasks[t.0]
                        &&& final(self)@.tasks == old(self)@.tasks.remove(t.0)
                        &&& final(self)@.draining == old(self)@.draining
                    },
                    None => {
                        &&& id is None
                        &&& final(self)@.tasks == old(self)@.tasks
                        &&& !final(self)@.draining
                    },
                }
            }),
    {
        loop
            invariant
                next_ready_spec(old(self)@.tasks, old(self)@.ready) == next_ready_spec(
                    self@.tasks,
                    self@.ready,
                ),
                self@.tasks == old(self)@.tasks,
                self@.next == old(self)@.next,
                self@.draining == old(self)@.draining,
            decreases self@.ready.len(),
        {
            match self.ready.pop() {
                None => {
                    self.draining = false;
                    return None;
                },
                Some(id) => {
                    let ghost before = self@.tasks;
                    if let Some(task) = self.tasks.remove(&id) {
                        return Some((TaskId(id), task));
                    }
                    assert(self@.tasks =~= before);
                },
            }
        }
    }

    /// Put back a task that was polled and is not finished.
    pub fn park(&mut self, id: TaskId, task: F)
        ensures
            final(self)@ == (SchedulerView { tasks: old(self)@.tasks.insert(id.0, task), ..old(self)@ }),
    {
        self.tasks.insert(id.0, task);
    }
}

/// Hand a task over: it is kept under a fresh id and marked ready, so the
/// drain that follows polls it.
pub fn spawn<F>(scheduler: &mut Scheduler<F>, task: F) -> (id: TaskId)
    ensures
        id.0 == old(scheduler)@.next,
        final(scheduler)@ == (SchedulerView {
            tasks: old(scheduler)@.tasks.insert(id.0, task),
            ready: old(scheduler)@.ready.push(id.0),
            next: next_id(old(scheduler)@.next),
            ..old(scheduler)@
        }),
{
    let id = scheduler.next;
    scheduler.next = if id == u64::MAX {
        0
    } else {
        id + 1
    };
    scheduler.tasks.insert(id, task);
    scheduler.ready.push(id);
    TaskId(id)
}

/// How many tasks are alive.
pub fn task_count<F>(scheduler: &Scheduler<F>) -> (n: usize)
    ensures
        n == scheduler@.tasks.len(),
{
    scheduler.tasks.len()
}

/// A task spawned into an idle scheduler is the next one polled, and a task
/// that finished on that poll is not kept: the scheduler is left as it was,
/// with the counter moved on.
pub proof fn lemma_a_finished_task_is_not_kept<F>(tasks: Map<u64, F>, next: u64, task: F)
    requires
        !tasks.contains_key(next),
    ensures
        ({
            let spawned = tasks.insert(next, task);
            let (rest, id) = next_ready_spec(spawned, seq![next]);
            &&& id == Some(next)
            &&& rest == Seq::<u64>::empty()
            &&& spawned.remove(next) == tasks
        }),
{
    let spawned = tasks.insert(next, task);
    assert(seq![next].last() == next);
    assert(seq![next].drop_last() =~= Seq::<u64>::empty());
    assert(spawned.remove(next) =~= tasks);
}

/// A drain finds nothing only when every ready id belongs to a task that has
/// already finished: no live task that was woken is left behind.
pub proof fn lemma_a_drain_leaves_no_woken_task<F>(tasks: Map<u64, F>, ready: Seq<u64>)
    ensures
        next_ready_spec(tasks, ready).1 is None ==> forall|i: int|
            0 <= i < ready.len() ==> !tasks.contains_key(#[trigger] ready[i]),
        next_ready_spec(tasks, ready).1 matches Some(id) ==> tasks.contains_key(id),
    decreases ready.len(),
{
    if ready.len() > 0 {
        lemma_a_drain_leaves_no_woken_task(tasks, ready.drop_last());
        if next_ready_spec(tasks, ready).1 is None {
            assert forall|i: int| 0 <= i < ready.len() implies !tasks.contains_key(
                #[trigger] ready[i],
            ) by {
                if i < ready.len() - 1 {
                    assert(ready[i] == ready.drop_last()[i]);
                }
            }
        }
    }
}

// ── Handing one value across an await ───────────────────────────────────────

/// The slot a value is delivered through, once, from somewhere else. The
/// receiving task polls it; the sending side fills it or goes away.
pub struct Oneshot<T, W> {
    value: Option<T>,
    waker: Option<W>,
    /// Set when the sending side goes away.
    dropped: bool,
}

/// A slot as values.
pub struct OneshotView<T, W> {
    pub value: Option<T>,
    pub waker: Option<W>,
    pub dropped: bool,
}

impl<T, W> View for Oneshot<T, W> {
    type V = OneshotView<T, W>;

    closed spec fn view(&self) -> OneshotView<T, W> {
        OneshotView { value: self.value, waker: self.waker, dropped: self.dropped }
    }
}

/// The right to deliver into one slot, once.
pub struct Sender {
    token: (),
}

/// A fresh, empty slot and the right to fill it.
pub fn oneshot<T, W>() -> (pair: (Sender, Oneshot<T, W>))
    ensures
        pair.1@ == (OneshotView::<T, W> { value: None, waker: None, dropped: false }),
{
    (Sender { token: () }, Oneshot { value: None, waker: None, dropped: false })
}

/// Sending: the value is stored and whoever waits is to be woken.
pub open spec fn sent<T, W>(s: OneshotView<T, W>, value: T) -> (OneshotView<T, W>, Option<W>) {
    (OneshotView { value: Some(value), waker: None, dropped: s.dropped }, s.waker)
}

/// The sending side going away: nothing changes if a value is there;
/// otherwise the slot is marked, and whoever waits is to be woken to find
/// out rather than wait for ever.
pub open spec fn sender_gone<T, W>(s: OneshotView<T, W>) -> (OneshotView<T, W>, Option<W>) {
    if s.value is Some {
        (s, None)
    } else {
        (OneshotView { value: None, waker: None, dropped: true }, s.waker)
    }
}

/// Polling: a value is taken; a slot whose sender went away answers
/// `None`; otherwise the poller is remembered and waits.
pub open spec fn received<T, W>(s: OneshotView<T, W>, waker: W) -> (
    OneshotView<T, W>,
    Option<Option<T>>,
) {
    match s.value {
        Some(v) => (OneshotView { value: None, ..s }, Some(Some(v))),
        None => if s.dropped {
            (s, Some(None))
        } else {
            (OneshotView { waker: Some(waker), ..s }, None)
        },
    }
}

impl Sender {
    /// Deliver `value`. Returns whom to wake.
    pub fn send<T, W>(self, slot: &mut Oneshot<T, W>, value: T) -> (woken: Option<W>)
        ensures
            (final(slot)@, woken) == sent(old(slot)@, value),
    {
        let mut waker: Option<W> = None;
        std::mem::swap(&mut waker, &mut slot.waker);
        slot.value = Some(value);
        waker
    }
}

impl<T, W> Oneshot<T, W> {
    /// The sending side went away. Returns whom to wake.
    pub fn sender_dropped(&mut self) -> (woken: Option<W>)
        ensures
            (final(self)@, woken) == sender_gone(old(self)@),
    {
        if self.value.is_some() {
            return None;
        }
        self.dropped = true;
        let mut waker: Option<W> = None;
        std::mem::swap(&mut waker, &mut self.waker);
        waker
    }

    /// Poll on behalf of `waker`. `Some(v)`: ready with `v`, which is `None`
    /// when the sender went away without sending; `None`: still waiting.
    pub fn poll(&mut self, waker: W) -> (r: Option<Option<T>>)
        ensures
            (final(self)@, r) == received(old(self)@, waker),
    {
        let mut value: Option<T> = None;
        std::mem::swap(&mut value, &mut self.value);
        match value {
            Some(v) => Some(Some(v)),
            None => if self.dropped {
                Some(None)
            } else {
                self.waker = Some(waker);
                None
            },
        }
    }
}

/// A value sent before the first poll is not lost, and a poll that came
/// first is woken by the send and then receives the value.
pub proof fn lemma_a_sent_value_is_received<T, W>(value: T, w1: W, w2: W)
    ensures
        ({
            let empty = OneshotView::<T, W> { value: None, waker: None, dropped: false };
            let (s1, _) = sent(empty, value);
            received(s1, w1).1 == Some(Some(value))
        }),
        ({
            let empty = OneshotView::<T, W> { value: None, waker: None, dropped: false };
            let (waiting, r) = received(empty, w1);
            let (s1, woken) = sent(waiting, value);
            &&& r is None
            &&& woken == Some(w1)
            &&& received(s1, w2).1 == Some(Some(value))
        }),
{
}

/// A sender that goes away without sending wakes the waiting task, which
/// then finds that no value will come; one that goes away after sending
/// changes nothing.
pub proof fn lemma_a_dropped_sender_wakes_the_waiter<T, W>(value: T, w1: W, w2: W)
    ensures
        ({
            let empty = OneshotView::<T, W> { value: None, waker: None, dropped: false };
            let (waiting, _) = received(empty, w1);
            let (gone, woken) = sender_gone(waiting);
            &&& woken == Some(w1)
            &&& received(gone, w2).1 == Some(None::<T>)
        }),
        ({
            let empty = OneshotView::<T, W> { value: None, waker: None, dropped: false };
            let (s1, _) = sent(empty, value);
            sender_gone(s1) == (s1, None::<W>)
        }),
{
}

} // verus!
