//! The decisions of two hand-written futures, as state machines: each poll
//! either finishes with a value or asks to be polled again.  Driving them
//! (the `Future` trait, the waker) is left to the caller.

use vstd::prelude::*;

verus! {

/// What one poll decides.
#[derive(Debug, PartialEq, Eq)]
pub enum Step<T> {
    /// The future is finished with this value.
    Ready(T),
    /// The future is not finished: wake the task so that it is polled again.
    Pending,
}

/// A countdown: each poll takes one off the count, and the poll that finds
/// it at zero finishes with `"liftoff!"`.
pub struct CountDown {
    pub count: u32,
}

/// The count after one poll of a countdown at `count`.
pub open spec fn countdown_next(count: nat) -> nat {
    if count == 0 {
        0
    } else {
        (count - 1) as nat
    }
}

/// The count of a countdown that started at `count` after `polls` polls.
pub open spec fn countdown_after(count: nat, polls: nat) -> nat
    decreases polls,
{
    if polls == 0 {
        count
    } else {
        countdown_next(countdown_after(count, (polls - 1) as nat))
    }
}

impl CountDown {
    pub fn new(count: u32) -> (c: Self)
        ensures
            c.count == count,
    {
        Self { count }
    }

    /// One poll: at zero it is finished with `"liftoff!"`; otherwise the
    /// count drops by one and the future is pending.
    pub fn poll_step(&mut self) -> (r: Step<&'static str>)
        ensures
            final(self).count == countdown_next(old(self).count as nat),
            old(self).count == 0 ==> r == Step::Ready("liftoff!"),
            old(self).count > 0 ==> r == Step::<&'static str>::Pending,
    {
        if self.count == 0 {
            Step::Ready("liftoff!")
        } else {
            self.count -= 1;
            Step::Pending
        }
    }
}

/// A countdown started at `n` is pending on each of its first `n` polls and
/// finished on every poll after that.
pub proof fn law_countdown_polls(n: nat, k: nat)
    ensures
        countdown_after(n, k) == if k <= n { (n - k) as nat } else { 0 },
        k < n ==> countdown_after(n, k) > 0,
        k >= n ==> countdown_after(n, k) == 0,
    decreases k,
{
    if k > 0 {
        law_countdown_polls(n, (k - 1) as nat);
    }
}

/// A future that is pending on its first poll and finished on every later
/// one.
pub struct YieldOnce {
    yielded: bool,
}

impl YieldOnce {
    /// It has been polled at least once.
    pub closed spec fn has_yielded(&self) -> bool {
        self.yielded
    }

    pub fn new() -> (y: Self)
        ensures
            !y.has_yielded(),
    {
        Self { yielded: false }
    }

    /// One poll: pending the first time, finished afterwards.
    pub fn poll_step(&mut self) -> (r: Step<()>)
        ensures
            final(self).has_yielded(),
            !old(self).has_yielded() ==> r == Step::<()>::Pending,
            old(self).has_yielded() ==> r == Step::Ready(()),
    {
        if !self.yielded {
            self.yielded = true;
            Step::Pending
        } else {
            Step::Ready(())
        }
    }
}

impl Default for YieldOnce {
    fn default() -> (y: Self)
        ensures
            !y.has_yielded(),
    {
        Self::new()
    }
}

} // verus!
