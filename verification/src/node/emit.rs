//! How many operations rely on the event loop staying open.
//!
//! Work runs off the runtime's thread and crosses back through a threadsafe
//! function. While any of it is outstanding the loop must be held open, and
//! once the last of it lands it must be let go: holding it for ever stops the
//! process exiting, and letting go early lets a script exit before its own
//! `await` resolves. The counting is kept apart from the runtime calls it
//! drives, and each operation answers one question: does the caller now have
//! to tell the runtime?

use vstd::prelude::*;

verus! {

/// How many holds are out. Shared between threads, it sits behind a lock.
pub struct LoopHold {
    count: usize,
}

impl View for LoopHold {
    type V = usize;

    closed spec fn view(&self) -> usize {
        self.count
    }
}

/// One more hold. The count wraps as an atomic counter does.
pub open spec fn held(c: usize) -> usize {
    if c == usize::MAX {
        0
    } else {
        (c + 1) as usize
    }
}

/// One fewer hold. The count wraps as an atomic counter does.
pub open spec fn let_go(c: usize) -> usize {
    if c == 0 {
        usize::MAX
    } else {
        (c - 1) as usize
    }
}

impl Default for LoopHold {
    fn default() -> (h: Self)
        ensures
            h@ == 0,
    {
        LoopHold { count: 0 }
    }
}

impl LoopHold {
    /// Take a hold. `true` if the loop must now be referenced: this is the
    /// first hold.
    pub fn acquire(&mut self) -> (first: bool)
        ensures
            first == (old(self)@ == 0),
            final(self)@ == held(old(self)@),
    {
        let before = self.count;
        self.count = if before == usize::MAX {
            0
        } else {
            before + 1
        };
        before == 0
    }

    /// Give one back. `true` if the loop must now be released: this was the
    /// last hold.
    pub fn release(&mut self) -> (last: bool)
        ensures
            last == (old(self)@ == 1),
            final(self)@ == let_go(old(self)@),
    {
        let before = self.count;
        self.count = if before == 0 {
            usize::MAX
        } else {
            before - 1
        };
        before == 1
    }

    /// Undo an acquire whose reference could not be taken, so that the count
    /// does not stay raised with nothing left to lower it.
    pub fn undo(&mut self)
        ensures
            final(self)@ == let_go(old(self)@),
    {
        self.count = if self.count == 0 {
            usize::MAX
        } else {
            self.count - 1
        };
    }

    /// How many holds are out.
    pub fn outstanding(&self) -> (n: usize)
        ensures
            n == self@,
    {
        self.count
    }
}

/// Giving a hold back undoes taking it; only the first of a run of holds
/// references the loop, and only the release that brings the count back to
/// nothing lets it go.
pub proof fn lemma_holds_net_out(c: usize)
    requires
        c < usize::MAX,
    ensures
        let_go(held(c)) == c,
        (held(c) == 1) == (c == 0),
        held(c) != 0,
{
}

/// Holds taken one after another from nothing are released in turn, and only
/// the last release lets the loop go: after `n` holds the count is `n`, and
/// releasing from a count `k` lets go exactly when `k` is one.
pub proof fn lemma_only_the_last_release_lets_go(n: nat)
    requires
        n < usize::MAX,
    ensures
        held_times(0, n) == n,
        forall|k: usize| 1 <= k <= n ==> (let_go(k) == 0) == (k == 1),
    decreases n,
{
    if n > 0 {
        lemma_only_the_last_release_lets_go((n - 1) as nat);
    }
}

/// The count after `n` holds, starting from `c`.
pub open spec fn held_times(c: usize, n: nat) -> usize
    decreases n,
{
    if n == 0 {
        c
    } else {
        held(held_times(c, (n - 1) as nat))
    }
}

} // verus!
