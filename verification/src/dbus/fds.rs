//! File descriptors that travel beside D-Bus messages.
//!
//! A value of type `h` is an index into a list of descriptors that arrived in
//! the ancillary data of the read that carried the message. They go into a
//! queue in arrival order, and each parsed message takes the number its
//! `UNIX_FDS` header field declares off the front — so a message declaring
//! none takes none, and an unrelated message cannot steal them.

use vstd::prelude::*;
use std::collections::VecDeque;

verus! {

/// A descriptor number, as the kernel hands it over.
pub type RawFd = i32;

/// `n` rounded up to a multiple of the platform word alignment.
pub open spec fn word_aligned(len: int) -> int {
    let a = vstd::layout::align_of::<usize>() as int;
    if len % a == 0 {
        len
    } else {
        len + (a - len % a)
    }
}

/// Round up to the alignment `cmsghdr` uses, which is the platform word.
pub fn align(len: usize) -> (r: usize)
    requires
        len + vstd::layout::align_of::<usize>() - 1 <= usize::MAX,
    ensures
        r == word_aligned(len as int),
{
    vstd::layout::layout_for_type_is_valid::<usize>();
    let a = std::mem::align_of::<usize>();
    let rest = len % a;
    if rest == 0 {
        len
    } else {
        len + (a - rest)
    }
}

/// Descriptors received but not yet claimed by a message, in arrival order.
pub struct Pending {
    queue: VecDeque<RawFd>,
}

impl View for Pending {
    type V = Seq<RawFd>;

    closed spec fn view(&self) -> Seq<RawFd> {
        self.queue@
    }
}

impl Default for Pending {
    fn default() -> (p: Self)
        ensures
            p@ == Seq::<RawFd>::empty(),
    {
        Pending::new()
    }
}

impl Pending {
    pub fn new() -> (p: Self)
        ensures
            p@ == Seq::<RawFd>::empty(),
    {
        Pending { queue: VecDeque::new() }
    }

    /// Queue descriptors that arrived, after those already waiting.
    pub fn push(&mut self, fds: &[RawFd])
        ensures
            final(self)@ == old(self)@ + fds@,
    {
        let mut i: usize = 0;
        while i < fds.len()
            invariant
                i <= fds@.len(),
                self.queue@ == old(self)@ + fds@.take(i as int),
            decreases fds@.len() - i,
        {
            self.queue.push_back(fds[i]);
            i = i + 1;
            assert(self.queue@ =~= old(self)@ + fds@.take(i as int));
        }
        assert(fds@.take(fds@.len() as int) =~= fds@);
    }

    /// Take `count` descriptors for a message that declared that many.
    ///
    /// Fewer than asked for means the peer's header disagreed with what it
    /// sent; whatever is available is returned rather than waiting for
    /// something that is not coming.
    pub fn take(&mut self, count: usize) -> (out: Vec<RawFd>)
        ensures
            ({
                let n = if count <= old(self)@.len() {
                    count as int
                } else {
                    old(self)@.len() as int
                };
                &&& out@ == old(self)@.take(n)
                &&& final(self)@ == old(self)@.skip(n)
            }),
    {
        let mut out: Vec<RawFd> = Vec::new();
        let mut k: usize = 0;
        while k < count
            invariant
                k <= count,
                k <= old(self)@.len(),
                out@ == old(self)@.take(k as int),
                self.queue@ == old(self)@.skip(k as int),
            ensures
                k == if count <= old(self)@.len() {
                    count
                } else {
                    old(self)@.len() as usize
                },
                out@ == old(self)@.take(k as int),
                self.queue@ == old(self)@.skip(k as int),
            decreases count - k,
        {
            match self.queue.pop_front() {
                Some(fd) => {
                    out.push(fd);
                    k = k + 1;
                    assert(out@ =~= old(self)@.take(k as int));
                    assert(self.queue@ =~= old(self)@.skip(k as int));
                },
                None => {
                    break;
                },
            }
        }
        out
    }

    /// Everything still waiting, in arrival order, leaving nothing: what a
    /// closing connection must close, since nobody else knows of them.
    pub fn drain(&mut self) -> (out: Vec<RawFd>)
        ensures
            out@ == old(self)@,
            final(self)@ == Seq::<RawFd>::empty(),
    {
        let n = self.queue.len();
        let out = self.take(n);
        assert(old(self)@.take(n as int) =~= old(self)@);
        assert(old(self)@.skip(n as int) =~= Seq::<RawFd>::empty());
        out
    }

    pub fn len(&self) -> (n: usize)
        ensures
            n == self@.len(),
    {
        self.queue.len()
    }

    pub fn is_empty(&self) -> (b: bool)
        ensures
            b == (self@.len() == 0),
    {
        self.queue.len() == 0
    }
}

/// Descriptors come out in the order they arrived: whatever was queued
/// first is taken first, and what is left keeps its order.
pub proof fn lemma_descriptors_keep_arrival_order(queued: Seq<RawFd>, arrived: Seq<RawFd>, count: int)
    requires
        0 <= count <= queued.len(),
    ensures
        (queued + arrived).take(count) == queued.take(count),
        (queued + arrived).skip(count) == queued.skip(count) + arrived,
{
    assert((queued + arrived).take(count) =~= queued.take(count));
    assert((queued + arrived).skip(count) =~= queued.skip(count) + arrived);
}

} // verus!
