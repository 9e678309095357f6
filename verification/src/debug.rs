//! Help for finding out what a hart is doing.

use vstd::prelude::*;
use crate::config::MAX_CPU_NUM;
use crate::kernel::Kernel;
use crate::task::processor::{current_task, Processor};

verus! {

/// The identifier of the process that hart `hart` runs, or -1 if it runs none.
pub fn debug_current_task_id(kernel: &mut Kernel, hart: usize) -> (r: i64)
    requires
        old(kernel).wf(),
        hart < MAX_CPU_NUM,
    ensures
        r == (match old(kernel).processors@[hart as int].current {
            Some(pid) => pid as i64,
            None => -1i64,
        }),
        final(kernel).wf(),
        old(kernel).same_but_harts(final(kernel)),
        final(kernel).processors@ == old(kernel).processors@.update(
            hart as int,
            Processor {
                intena: old(kernel).processors@[hart as int].interrupts,
                ..old(kernel).processors@[hart as int]
            },
        ),
{
    match current_task(kernel, hart) {
        Some(pid) => pid as i64,
        None => -1,
    }
}

} // verus!
