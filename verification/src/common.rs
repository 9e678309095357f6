//! Interrupts of a hart: switching them off nests, and they
//! come back on only when the outermost switch is undone.

use vstd::prelude::*;
use crate::task::processor::Processor;

verus! {

/// What holds of the interrupts of a hart unless the kernel is about to
/// leave for user mode: the nesting depth is not negative; at depth zero
/// interrupts are enabled; below, they are disabled and were enabled before.
pub open spec fn nesting_inv(cpu: &Processor) -> bool {
    &&& cpu.noff >= 0
    &&& cpu.noff == 0 ==> cpu.interrupts
    &&& cpu.noff > 0 ==> !cpu.interrupts && cpu.intena
}

/// Whether the hart takes interrupts.
pub fn intr_get(cpu: &Processor) -> (r: bool)
    ensures
        r == cpu.interrupts,
{
    cpu.interrupts
}

/// Makes the hart take no interrupts.
pub fn intr_off(cpu: &mut Processor)
    ensures
        !final(cpu).interrupts,
        final(cpu).noff == old(cpu).noff,
        final(cpu).intena == old(cpu).intena,
        final(cpu).running() == old(cpu).running(),
        final(cpu).scheduler_context() == old(cpu).scheduler_context(),
{
    cpu.interrupts = false;
}

/// Makes the hart take interrupts.
pub fn intr_on(cpu: &mut Processor)
    ensures
        final(cpu).interrupts,
        final(cpu).noff == old(cpu).noff,
        final(cpu).intena == old(cpu).intena,
        final(cpu).running() == old(cpu).running(),
        final(cpu).scheduler_context() == old(cpu).scheduler_context(),
{
    cpu.interrupts = true;
}

/// Switches interrupts off and counts the switch; the outermost switch
/// remembers whether they were on.
pub fn push_off(cpu: &mut Processor)
    requires
        0 <= old(cpu).noff < i64::MAX,
    ensures
        !final(cpu).interrupts,
        final(cpu).noff == old(cpu).noff + 1,
        final(cpu).intena == (if old(cpu).noff == 0 {
            old(cpu).interrupts
        } else {
            old(cpu).intena
        }),
        final(cpu).running() == old(cpu).running(),
        final(cpu).scheduler_context() == old(cpu).scheduler_context(),
        nesting_inv(old(cpu)) ==> nesting_inv(final(cpu)),
{
    let old = intr_get(cpu);
    intr_off(cpu);
    if cpu.noff == 0 {
        cpu.intena = old;
    }
    cpu.noff += 1;
}

/// Undoes one switch; the outermost switches interrupts on again if they
/// were on before. Interrupts must be off and a switch must be outstanding.
pub fn pop_off(cpu: &mut Processor)
    requires
        !old(cpu).interrupts,
        old(cpu).noff >= 1,
    ensures
        final(cpu).noff == old(cpu).noff - 1,
        final(cpu).intena == old(cpu).intena,
        final(cpu).interrupts == (old(cpu).noff == 1 && old(cpu).intena),
        final(cpu).running() == old(cpu).running(),
        final(cpu).scheduler_context() == old(cpu).scheduler_context(),
        nesting_inv(old(cpu)) ==> nesting_inv(final(cpu)),
{
    cpu.noff -= 1;
    if cpu.noff == 0 && cpu.intena {
        intr_on(cpu);
    }
}

} // verus!
