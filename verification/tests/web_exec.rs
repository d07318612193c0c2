//! The executor's bookkeeping, driven the way the page's runtime drives it:
//! spawn, then drain, polling each ready task outside the scheduler.

use bluewire::web::exec::{oneshot, spawn, task_count, Oneshot, Scheduler, Sender, TaskId};
use std::cell::Cell;
use std::rc::Rc;

/// A task: what it does when polled.
enum Job {
    /// Finishes at once, having set a flag.
    SetFlag(Rc<Cell<bool>>),
    /// Waits on slot `n`; adds the value to the counter, or sets the flag
    /// when the sender went away.
    Await { slot: usize, got: Rc<Cell<u32>>, gone: Rc<Cell<bool>> },
    /// Wakes itself from inside its first poll, then finishes.
    WakeThenReady { woke: bool, done: Rc<Cell<bool>> },
}

struct Runtime {
    scheduler: Scheduler<Job>,
    slots: Vec<Oneshot<u32, TaskId>>,
}

impl Runtime {
    fn new() -> Self {
        Runtime { scheduler: Scheduler::new(), slots: Vec::new() }
    }

    fn channel(&mut self) -> (Sender, usize) {
        let (tx, rx) = oneshot::<u32, TaskId>();
        self.slots.push(rx);
        (tx, self.slots.len() - 1)
    }

    fn spawn(&mut self, job: Job) -> TaskId {
        let id = spawn(&mut self.scheduler, job);
        self.drain();
        id
    }

    fn wake(&mut self, id: TaskId) {
        self.scheduler.wake(id);
        self.drain();
    }

    fn send(&mut self, tx: Sender, slot: usize, value: u32) {
        if let Some(id) = tx.send(&mut self.slots[slot], value) {
            self.wake(id);
        }
    }

    fn drop_sender(&mut self, slot: usize) {
        if let Some(id) = self.slots[slot].sender_dropped() {
            self.wake(id);
        }
    }

    /// Poll one task. `true`: it finished.
    fn poll(&mut self, id: TaskId, job: &mut Job, wakes: &mut Vec<TaskId>) -> bool {
        match job {
            Job::SetFlag(flag) => {
                flag.set(true);
                true
            }
            Job::Await { slot, got, gone } => match self.slots[*slot].poll(id) {
                Some(Some(v)) => {
                    got.set(got.get() + v);
                    true
                }
                Some(None) => {
                    gone.set(true);
                    true
                }
                None => false,
            },
            Job::WakeThenReady { woke, done } => {
                if *woke {
                    done.set(true);
                    return true;
                }
                *woke = true;
                wakes.push(id);
                false
            }
        }
    }

    fn drain(&mut self) {
        if !self.scheduler.begin_drain() {
            return;
        }
        while let Some((id, mut job)) = self.scheduler.next_ready() {
            let mut wakes = Vec::new();
            if !self.poll(id, &mut job, &mut wakes) {
                self.scheduler.park(id, job);
            }
            for w in wakes {
                self.scheduler.wake(w);
            }
        }
    }
}

#[test]
fn a_task_that_never_waits_finishes_immediately() {
    let mut rt = Runtime::new();
    let ran = Rc::new(Cell::new(false));
    rt.spawn(Job::SetFlag(ran.clone()));
    assert!(ran.get());
    assert_eq!(task_count(&rt.scheduler), 0, "a finished task is not kept");
}

#[test]
fn a_task_resumes_when_its_value_arrives() {
    let mut rt = Runtime::new();
    let got = Rc::new(Cell::new(0u32));
    let (tx, slot) = rt.channel();

    rt.spawn(Job::Await { slot, got: got.clone(), gone: Rc::new(Cell::new(false)) });
    assert_eq!(got.get(), 0, "still waiting");
    assert_eq!(task_count(&rt.scheduler), 1);

    rt.send(tx, slot, 42);
    assert_eq!(got.get(), 42, "sending should have resumed the task");
    assert_eq!(task_count(&rt.scheduler), 0);
}

/// A sender that goes away has to wake the receiver.
#[test]
fn dropping_the_sender_wakes_the_waiter() {
    let mut rt = Runtime::new();
    let finished = Rc::new(Cell::new(false));
    let (_tx, slot) = rt.channel();

    rt.spawn(Job::Await { slot, got: Rc::new(Cell::new(0)), gone: finished.clone() });
    assert!(!finished.get());

    rt.drop_sender(slot);
    assert!(finished.get());
    assert_eq!(task_count(&rt.scheduler), 0);
}

/// Waking from inside a poll must not re-enter the task map.
#[test]
fn waking_during_a_poll_does_not_re_enter() {
    let mut rt = Runtime::new();
    let done = Rc::new(Cell::new(false));
    rt.spawn(Job::WakeThenReady { woke: false, done: done.clone() });
    assert!(done.get(), "the task should have been polled again");
    assert_eq!(task_count(&rt.scheduler), 0);
}

#[test]
fn many_tasks_run_independently() {
    let mut rt = Runtime::new();
    let count = Rc::new(Cell::new(0u32));
    let mut senders = Vec::new();
    for _ in 0..5 {
        let (tx, slot) = rt.channel();
        senders.push((tx, slot));
        rt.spawn(Job::Await { slot, got: count.clone(), gone: Rc::new(Cell::new(false)) });
    }
    assert_eq!(task_count(&rt.scheduler), 5);
    // Each task counts one value received.
    for (tx, slot) in senders {
        rt.send(tx, slot, 1);
    }
    assert_eq!(count.get(), 5);
    assert_eq!(task_count(&rt.scheduler), 0);
}

#[test]
fn a_value_sent_before_the_first_poll_is_not_lost() {
    let mut rt = Runtime::new();
    let (tx, slot) = rt.channel();
    rt.send(tx, slot, 7);
    let got = Rc::new(Cell::new(0u32));
    rt.spawn(Job::Await { slot, got: got.clone(), gone: Rc::new(Cell::new(false)) });
    assert_eq!(got.get(), 7);
}

#[test]
fn tasks_get_fresh_ids_and_a_stale_wake_is_ignored() {
    let mut rt = Runtime::new();
    let a = rt.spawn(Job::SetFlag(Rc::new(Cell::new(false))));
    let b = rt.spawn(Job::SetFlag(Rc::new(Cell::new(false))));
    assert_eq!(a, TaskId(1));
    assert_eq!(b, TaskId(2));
    // Both finished; waking one again finds nothing to poll.
    rt.wake(a);
    assert_eq!(task_count(&rt.scheduler), 0);
}

#[test]
fn a_sender_dropped_after_sending_changes_nothing() {
    let (tx, mut slot) = oneshot::<u32, u8>();
    assert_eq!(tx.send(&mut slot, 3), None);
    assert_eq!(slot.sender_dropped(), None);
    assert_eq!(slot.poll(1), Some(Some(3)));
}
