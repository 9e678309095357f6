//! A spin lock that keeps interrupts off on the hart that holds it.

use vstd::prelude::*;
use crate::common::{nesting_inv, pop_off, push_off};
use crate::task::processor::Processor;

verus! {

/// A lock that one hart at a time can hold. Taking it switches interrupts
/// off on the hart, and giving it back undoes that switch.
pub struct SpinLock {
    /// Whether a hart holds the lock.
    pub locked: bool,
    /// The hart that holds the lock, or -1.
    pub holder: i64,
}

impl SpinLock {
    /// Whether hart `hart` holds the lock.
    pub open spec fn held_by(&self, hart: usize) -> bool {
        self.locked && self.holder == hart
    }

    /// A lock that nobody holds.
    pub fn new() -> (r: Self)
        ensures
            !r.locked,
            r.holder == -1,
    {
        SpinLock { locked: false, holder: -1 }
    }

    /// Hart `hart`, whose state is `cpu`, takes the lock, which must be free.
    pub fn lock(&mut self, cpu: &mut Processor, hart: usize)
        requires
            !old(self).locked,
            hart <= i64::MAX,
            0 <= old(cpu).noff < i64::MAX,
        ensures
            final(self).held_by(hart),
            !final(cpu).interrupts,
            final(cpu).noff == old(cpu).noff + 1,
            final(cpu).intena == (if old(cpu).noff == 0 {
                old(cpu).interrupts
            } else {
                old(cpu).intena
            }),
            final(cpu).running() == old(cpu).running(),
            nesting_inv(old(cpu)) ==> nesting_inv(final(cpu)),
    {
        push_off(cpu);
        self.locked = true;
        self.holder = hart as i64;
    }

    /// Hart `hart`, whose state is `cpu`, gives the lock back, which it must hold.
    pub fn unlock(&mut self, cpu: &mut Processor, hart: usize)
        requires
            old(self).held_by(hart),
            !old(cpu).interrupts,
            old(cpu).noff >= 1,
        ensures
            !final(self).locked,
            final(self).holder == -1,
            final(cpu).noff == old(cpu).noff - 1,
            final(cpu).intena == old(cpu).intena,
            final(cpu).interrupts == (old(cpu).noff == 1 && old(cpu).intena),
            final(cpu).running() == old(cpu).running(),
            nesting_inv(old(cpu)) ==> nesting_inv(final(cpu)),
    {
        self.holder = -1;
        self.locked = false;
        pop_off(cpu);
    }

    /// Whether hart `hart` holds the lock.
    pub fn holding(&self, hart: usize) -> (r: bool)
        requires
            hart <= i64::MAX,
        ensures
            r == self.held_by(hart),
    {
        self.locked && self.holder == hart as i64
    }
}

} // verus!
