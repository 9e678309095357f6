//! What a kernel-side context switch saves and restores.

use vstd::prelude::*;

verus! {

/// The callee-saved registers of a task in the kernel, with the return
/// address and the stack pointer the switch resumes with.
#[derive(Copy, Clone, Debug)]
pub struct TaskContext {
    pub ra: u64,
    pub sp: u64,
    pub regs: [u64; 12],
}

impl TaskContext {
    pub fn zero_init() -> (r: Self)
        ensures
            r.ra == 0,
            r.sp == 0,
            r.regs@ == Seq::new(12, |i: int| 0u64),
    {
        let r = TaskContext { ra: 0, sp: 0, regs: [0u64; 12] };
        assert(r.regs@ =~= Seq::new(12, |i: int| 0u64));
        r
    }

    /// The context of a task that was just forked: the first switch to it
    /// continues at `fork_ret`, the address of the kernel's entry for forked
    /// tasks, on the kernel stack that ends at `kstack_ptr`.
    pub fn goto_forkret(kstack_ptr: u64, fork_ret: u64) -> (r: Self)
        ensures
            r.ra == fork_ret,
            r.sp == kstack_ptr,
            r.regs@ == Seq::new(12, |i: int| 0u64),
    {
        let r = TaskContext { ra: fork_ret, sp: kstack_ptr, regs: [0u64; 12] };
        assert(r.regs@ =~= Seq::new(12, |i: int| 0u64));
        r
    }

    /// The context of a task that was just loaded: the first switch to it
    /// continues at `trap_return`, the address of the kernel's return to
    /// user mode, on the kernel stack that ends at `kstack_ptr`.
    pub fn goto_trap_return(kstack_ptr: u64, trap_return: u64) -> (r: Self)
        ensures
            r.ra == trap_return,
            r.sp == kstack_ptr,
            r.regs@ == Seq::new(12, |i: int| 0u64),
    {
        let r = TaskContext { ra: trap_return, sp: kstack_ptr, regs: [0u64; 12] };
        assert(r.regs@ =~= Seq::new(12, |i: int| 0u64));
        r
    }
}

} // verus!
