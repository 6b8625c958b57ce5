//! Counting semaphore.
//!
//! Its state is one counter: above 0 it is the number of free resources,
//! below 0 the number of threads waiting.  The counter changes as an atomic
//! integer does, wrapping at the bounds of `i32`.  Blocking and waking
//! threads is the scheduler's work: `wait` says whether the caller must
//! block, `signal` whether a waiting thread must be woken.
use vstd::prelude::*;

verus! {

/// `x - 1`, wrapping at the bounds of `i32`.
pub open spec fn dec_wrapping(x: i32) -> i32 {
    if x == i32::MIN { i32::MAX } else { (x - 1) as i32 }
}

/// `x + 1`, wrapping at the bounds of `i32`.
pub open spec fn inc_wrapping(x: i32) -> i32 {
    if x == i32::MAX { i32::MIN } else { (x + 1) as i32 }
}

/// Counting semaphore.
pub struct Semaphore {
    count: i32,
}

impl Semaphore {
    /// The counter.
    pub closed spec fn value(&self) -> i32 {
        self.count
    }

    /// A semaphore with `count` free resources.
    pub fn new(count: i32) -> (s: Semaphore)
        ensures
            s.value() == count,
    {
        Semaphore { count }
    }

    /// Takes a resource; when there was none free, the caller must block
    /// until a `signal` wakes it.
    pub fn wait(&mut self) -> (must_block: bool)
        ensures
            final(self).value() == dec_wrapping(old(self).value()),
            must_block == (old(self).value() <= 0),
    {
        let old = self.count;
        self.count = if old == i32::MIN { i32::MAX } else { old - 1 };
        old <= 0
    }

    /// Takes a resource only if one is free.
    pub fn try_wait(&mut self) -> (taken: bool)
        ensures
            taken == (old(self).value() > 0),
            taken ==> final(self).value() == old(self).value() - 1,
            !taken ==> final(self).value() == old(self).value(),
    {
        let current = self.count;
        if current <= 0 {
            return false;
        }
        self.count = current - 1;
        true
    }

    /// Gives a resource back; when threads were waiting, the first of them
    /// must be woken.
    pub fn signal(&mut self) -> (wake: bool)
        ensures
            final(self).value() == inc_wrapping(old(self).value()),
            wake == (old(self).value() < 0),
    {
        let old = self.count;
        self.count = if old == i32::MAX { i32::MIN } else { old + 1 };
        old < 0
    }

    /// The counter.
    pub fn count(&self) -> (c: i32)
        ensures
            c == self.value(),
    {
        self.count
    }
}

impl Semaphore {
    /// A `wait` right after a `signal` leaves the counter as it was, and so
    /// does a `signal` right after a `wait`.
    pub proof fn lemma_signal_wait(s0: &Self, s1: &Self, s2: &Self)
        requires
            s1.value() == inc_wrapping(s0.value()),
            s2.value() == dec_wrapping(s1.value()),
        ensures
            s2.value() == s0.value(),
    {
    }

    /// See `lemma_signal_wait`.
    pub proof fn lemma_wait_signal(s0: &Self, s1: &Self, s2: &Self)
        requires
            s1.value() == dec_wrapping(s0.value()),
            s2.value() == inc_wrapping(s1.value()),
        ensures
            s2.value() == s0.value(),
    {
    }
}

} // verus!
