//! The schedule of the workers that prepare tracks ahead of the writer:
//! track indices go out in order, each once, at most `window` beyond the
//! last track written, so a slow stick does not pile up prepared tracks.
use vstd::prelude::*;

verus! {

/// What a worker asking for work gets.
#[derive(Debug, Clone, Copy, PartialEq, Eq)]
pub enum Take {
    /// Prepare this track.
    Index(usize),
    /// Wait until the writer moves on.
    Wait,
    /// No work is left, or the run stopped.
    Done,
}

/// `v` clamped to 1..=2.
pub open spec fn clamp12(v: int) -> int {
    if v < 1 { 1 } else if v > 2 { 2 } else { v }
}

/// The smaller of two integers.
pub open spec fn min_int(a: int, b: int) -> int {
    if a < b { a } else { b }
}

/// The schedule's state.
#[derive(Debug, Clone, Copy, PartialEq, Eq)]
pub struct Ahead {
    pub workers: usize,
    pub window: usize,
    pub total: usize,
    /// The next index to hand out.
    pub next: usize,
    /// How many tracks the writer has written.
    pub written: usize,
    pub stopped: bool,
}

impl Ahead {
    /// A schedule for `total` tracks with `parallelism` threads available:
    /// one or two workers, never more than there are tracks, and a window
    /// of two tracks per worker.
    pub fn new(total: usize, parallelism: usize) -> (a: Ahead)
        ensures
            a.workers == min_int(clamp12(parallelism as int), if total < 1 { 1 } else { total as int }),
            a.window == 2 * a.workers,
            a.total == total,
            a.next == 0 && a.written == 0 && !a.stopped,
    {
        let clamped: usize = if parallelism < 1 { 1 } else if parallelism > 2 { 2 } else { parallelism };
        let most: usize = if total < 1 { 1 } else { total };
        let workers = if clamped < most { clamped } else { most };
        Ahead { workers, window: workers * 2, total, next: 0, written: 0, stopped: false }
    }

    /// Hand out the next index when it lies within the window: the indices
    /// go out as 0, 1, 2, ..., each once.
    pub fn take(&mut self) -> (t: Take)
        ensures
            old(self).stopped || old(self).next >= old(self).total ==> t == Take::Done && *final(self) == *old(self),
            !(old(self).stopped || old(self).next >= old(self).total) ==> {
                if old(self).next < old(self).written + old(self).window {
                    &&& t == Take::Index(old(self).next)
                    &&& *final(self) == (Ahead { next: (old(self).next + 1) as usize, ..*old(self) })
                } else {
                    t == Take::Wait && *final(self) == *old(self)
                }
            },
    {
        if self.stopped || self.next >= self.total {
            return Take::Done;
        }
        if (self.next as u128) < (self.written as u128) + (self.window as u128) {
            let i = self.next;
            self.next = self.next + 1;
            Take::Index(i)
        } else {
            Take::Wait
        }
    }

    /// The writer has written `n` tracks.
    pub fn set_written(&mut self, n: usize)
        ensures
            *final(self) == (Ahead { written: n, ..*old(self) }),
    {
        self.written = n;
    }

    /// Stop handing out work.
    pub fn stop(&mut self)
        ensures
            *final(self) == (Ahead { stopped: true, ..*old(self) }),
    {
        self.stopped = true;
    }
}

}
