//! Recursive mutex.
//!
//! The owner is named by a thread identifier; the lock count wraps as an
//! atomic integer does.  Blocking is the scheduler's work: a `lock` that
//! cannot be taken tells the caller to block and try again.
use vstd::prelude::*;

verus! {

/// `x + 1`, wrapping at the bounds of `u32`.
pub open spec fn inc_wrapping_u32(x: u32) -> u32 {
    if x == u32::MAX { 0 } else { (x + 1) as u32 }
}

/// Recursive mutex.
pub struct Mutex {
    lock_count: u32,
    owner: Option<usize>,
}

/// Proof that the holder took the mutex once; it must be handed back to
/// `unlock`.
pub struct MutexGuard {
    owner: usize,
}

impl MutexGuard {
    /// The thread that took the mutex.
    pub closed spec fn holder(&self) -> usize {
        self.owner
    }
}

impl Mutex {
    /// Number of times the owner took the mutex.
    pub closed spec fn count(&self) -> u32 {
        self.lock_count
    }

    /// The thread that holds the mutex.
    pub closed spec fn holder(&self) -> Option<usize> {
        self.owner
    }

    /// A free mutex.
    pub fn new() -> (m: Mutex)
        ensures
            m.count() == 0,
            m.holder() is None,
    {
        Mutex { lock_count: 0, owner: None }
    }

    /// Takes the mutex for thread `current` if it is free or already held
    /// by `current`.
    pub fn try_lock(&mut self, current: usize) -> (g: Option<MutexGuard>)
        ensures
            old(self).count() == 0 ==> (g matches Some(h) && h.holder() == current)
                && final(self).count() == 1 && final(self).holder() == Some(current),
            old(self).count() != 0 && old(self).holder() == Some(current) ==> (g matches Some(h) && h.holder() == current)
                && final(self).count() == inc_wrapping_u32(old(self).count())
                && final(self).holder() == old(self).holder(),
            old(self).count() != 0 && old(self).holder() != Some(current) ==> g is None
                && *final(self) == *old(self),
    {
        if self.lock_count == 0 {
            self.lock_count = 1;
            self.owner = Some(current);
            return Some(MutexGuard { owner: current });
        } else if let Some(owner) = self.owner {
            if owner == current {
                self.lock_count = if self.lock_count == u32::MAX { 0 } else { self.lock_count + 1 };
                return Some(MutexGuard { owner: current });
            }
        }
        None
    }

    /// One attempt at taking the mutex for thread `current`; `None` tells
    /// the caller to block until the mutex is given back, then try again.
    pub fn lock(&mut self, current: usize) -> (g: Option<MutexGuard>)
        ensures
            old(self).count() == 0 ==> (g matches Some(h) && h.holder() == current)
                && final(self).count() == 1 && final(self).holder() == Some(current),
            old(self).count() != 0 && old(self).holder() == Some(current) ==> (g matches Some(h) && h.holder() == current)
                && final(self).count() == inc_wrapping_u32(old(self).count())
                && final(self).holder() == old(self).holder(),
            old(self).count() != 0 && old(self).holder() != Some(current) ==> g is None
                && *final(self) == *old(self),
    {
        self.try_lock(current)
    }

    /// Whether some thread holds the mutex.
    pub fn is_locked(&self) -> (b: bool)
        ensures
            b == self.holder() is Some,
    {
        self.owner.is_some()
    }

    /// Gives back one taking of the mutex by the holder of `guard`, which
    /// must be the owner.  When the last taking is given back the mutex is
    /// free, and the first waiting thread must be woken.
    pub fn unlock(&mut self, guard: MutexGuard) -> (wake: bool)
        requires
            old(self).holder() == Some(guard.holder()),
        ensures
            wake == (old(self).count() == 1),
            wake ==> final(self).holder() is None && final(self).count() == 0,
            !wake ==> final(self).holder() == old(self).holder()
                && final(self).count() == (if old(self).count() == 0 { u32::MAX } else { (old(self).count() - 1) as u32 }),
    {
        let old = self.lock_count;
        self.lock_count = if old == 0 { u32::MAX } else { old - 1 };
        if old == 1 {
            self.owner = None;
            true
        } else {
            false
        }
    }
}

impl Mutex {
    /// A free mutex taken by a thread and given back by it is free again.
    pub proof fn lemma_lock_unlock(m0: &Self, m1: &Self, m2: &Self, current: usize, wake: bool)
        requires
            m0.count() == 0,
            m1.count() == 1,
            m1.holder() == Some(current),
            wake == (m1.count() == 1),
            wake ==> m2.holder() is None && m2.count() == 0,
        ensures
            wake,
            m2.holder() is None,
            m2.count() == m0.count(),
    {
    }
}

} // verus!
