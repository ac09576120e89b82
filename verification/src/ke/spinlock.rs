//! The kernel spinlock.
//!
//! Acquiring raises to `DISPATCH_LEVEL`, so that the holder is neither preempted
//! nor interrupted by a deferred call on its processor, and then claims the lock
//! word; releasing frees the word and returns to the level before. A claim on a
//! held lock fails and is tried again until the holder is done, so that the
//! contracts of the whole acquisition speak of a free one.
use crate::ke::irql::{
    ke_get_current_irql, ke_lower_irql, ke_raise_irql, Kirql, Processor, DISPATCH_LEVEL,
};
use vstd::prelude::*;

verus! {

/// A lock that owns the data it guards.
pub struct SpinLock<T> {
    /// The lock word.
    pub locked: bool,
    pub data: T,
}

/// Proof of ownership: the level to return to.
#[derive(Debug)]
pub struct SpinLockGuard {
    pub old_irql: Kirql,
}

/// One claim on a lock word: the word is held afterwards, and it is the claimant's if it
/// was free.
pub open spec fn claim(locked: bool) -> (bool, bool) {
    (true, !locked)
}

impl<T> SpinLock<T> {
    /// A free lock.
    pub fn new(data: T) -> (l: Self)
        ensures
            !l.locked,
            l.data == data,
    {
        SpinLock { locked: false, data }
    }

    /// One turn of the spin: claim the lock if it is free. A held lock stays with its
    /// holder.
    pub fn try_claim(&mut self) -> (claimed: bool)
        ensures
            (final(self).locked, claimed) == claim(old(self).locked),
            final(self).data == old(self).data,
    {
        let free: bool = !self.locked;
        self.locked = true;
        free
    }

    /// `KeAcquireSpinLock`: raise to `DISPATCH_LEVEL` and claim the lock.
    pub fn lock(&mut self, cpu: &mut Processor) -> (g: SpinLockGuard)
        requires
            !old(self).locked,
            old(cpu).irql <= DISPATCH_LEVEL,
        ensures
            final(self).locked,
            final(self).data == old(self).data,
            g.old_irql == old(cpu).irql,
            *final(cpu) == (Processor { irql: DISPATCH_LEVEL, ..*old(cpu) }),
    {
        let old_irql: Kirql = ke_raise_irql(cpu, DISPATCH_LEVEL);
        self.try_claim();
        SpinLockGuard { old_irql }
    }

    /// `KeAcquireSpinLockAtDpcLevel`: claim the lock at `DISPATCH_LEVEL` or above,
    /// without raising.
    pub fn lock_at_dpc_level(&mut self, cpu: &Processor) -> (g: SpinLockGuard)
        requires
            !old(self).locked,
            cpu.irql >= DISPATCH_LEVEL,
        ensures
            final(self).locked,
            final(self).data == old(self).data,
            g.old_irql == cpu.irql,
    {
        let old_irql: Kirql = ke_get_current_irql(cpu);
        self.try_claim();
        SpinLockGuard { old_irql }
    }

    /// `KeReleaseSpinLock`: free the word, then return to the level before.
    pub fn release(&mut self, guard: SpinLockGuard, cpu: &mut Processor)
        requires
            old(self).locked,
            guard.old_irql <= old(cpu).irql,
        ensures
            !final(self).locked,
            final(self).data == old(self).data,
            *final(cpu) == (Processor { irql: guard.old_irql, ..*old(cpu) }),
    {
        self.locked = false;
        ke_lower_irql(cpu, guard.old_irql);
    }

    /// Access to the data without locking; exclusive access to the lock makes it
    /// sound.
    pub fn get_mut(&mut self) -> (data: &mut T)
        ensures
            *data == old(self).data,
            *final(self) == (SpinLock { locked: old(self).locked, data: *final(data) }),
    {
        &mut self.data
    }
}

/// One turn of the spin on a bare lock word: claim it if it is free.
pub fn try_claim_raw(word: &mut usize) -> (claimed: bool)
    ensures
        claimed == (*old(word) == 0),
        *final(word) == if claimed {
            1
        } else {
            *old(word)
        },
{
    if *word == 0 {
        *word = 1;
        true
    } else {
        false
    }
}

/// `KeAcquireSpinLock` on a bare lock word next to the data it guards. Returns
/// the level before.
pub fn ke_acquire_spin_lock_raw(word: &mut usize, cpu: &mut Processor) -> (before: Kirql)
    requires
        *old(word) == 0,
        old(cpu).irql <= DISPATCH_LEVEL,
    ensures
        *final(word) == 1,
        before == old(cpu).irql,
        *final(cpu) == (Processor { irql: DISPATCH_LEVEL, ..*old(cpu) }),
{
    let before: Kirql = ke_raise_irql(cpu, DISPATCH_LEVEL);
    try_claim_raw(word);
    before
}

/// `KeReleaseSpinLock` on a bare lock word.
pub fn ke_release_spin_lock_raw(word: &mut usize, old_irql: Kirql, cpu: &mut Processor)
    requires
        *old(word) == 1,
        old_irql <= old(cpu).irql,
    ensures
        *final(word) == 0,
        *final(cpu) == (Processor { irql: old_irql, ..*old(cpu) }),
{
    *word = 0;
    ke_lower_irql(cpu, old_irql);
}

/// Of two that claim a free lock one after the other, the first gets it and the second does
/// not, and the lock stays taken.
pub proof fn a_lock_is_claimed_once(locked: bool)
    ensures
        claim(false).1,
        !claim(claim(locked).0).1,
        claim(locked).0,
        claim(locked).1 == !locked,
{
}

} // verus!
