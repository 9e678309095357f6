//! The register file of a user program as the kernel saves it on a trap.

use vstd::prelude::*;

verus! {

/// Bit of `sstatus` that holds the privilege level a trap came from.
pub const SSTATUS_SPP: u64 = 0x100;

/// Number of the stack-pointer register.
pub const REG_SP: usize = 2;

/// Number of register `a0`: first argument and return value of a system call.
pub const REG_A0: usize = 10;

/// Number of register `a1`.
pub const REG_A1: usize = 11;

/// Number of register `a2`.
pub const REG_A2: usize = 12;

/// Number of register `a7`: the number of the system call.
pub const REG_A7: usize = 17;

/// What the trampoline saves when a user program traps and restores when it
/// resumes, together with what it needs to enter the kernel.
#[derive(Clone, Copy, Debug)]
pub struct TrapContext {
    /// The 32 general registers.
    pub regs: [u64; 32],
    pub sstatus: u64,
    /// Address of the instruction to resume at.
    pub sepc: u64,
    /// The `satp` value of the kernel's address space.
    pub kernel_satp: u64,
    /// Top of the kernel stack of the process.
    pub kernel_sp: u64,
    /// Address of the kernel's trap handler.
    pub trap_handler: u64,
}

impl TrapContext {
    pub fn set_sp(&mut self, sp: u64)
        ensures
            final(self).regs@ == old(self).regs@.update(REG_SP as int, sp),
            final(self).sstatus == old(self).sstatus,
            final(self).sepc == old(self).sepc,
            final(self).kernel_satp == old(self).kernel_satp,
            final(self).kernel_sp == old(self).kernel_sp,
            final(self).trap_handler == old(self).trap_handler,
    {
        self.regs[REG_SP] = sp;
    }

    /// Sets general register `i`.
    pub fn set_reg(&mut self, i: usize, value: u64)
        requires
            i < 32,
        ensures
            final(self).regs@ == old(self).regs@.update(i as int, value),
            final(self).sstatus == old(self).sstatus,
            final(self).sepc == old(self).sepc,
            final(self).kernel_satp == old(self).kernel_satp,
            final(self).kernel_sp == old(self).kernel_sp,
            final(self).trap_handler == old(self).trap_handler,
    {
        self.regs[i] = value;
    }

    /// The context of a program that is about to start at `entry` in user
    /// mode: all registers zero but the stack pointer, and `sstatus` as it
    /// was read, `sstatus`, with the previous privilege set to user.
    pub fn app_init_context(
        entry: u64,
        user_sp: u64,
        kernel_satp: u64,
        kernel_sp: u64,
        trap_handler: u64,
        sstatus: u64,
    ) -> (cx: Self)
        ensures
            cx.regs@ == Seq::new(32, |i: int| 0u64).update(REG_SP as int, user_sp),
            cx.sstatus == sstatus & !SSTATUS_SPP,
            cx.sepc == entry,
            cx.kernel_satp == kernel_satp,
            cx.kernel_sp == kernel_sp,
            cx.trap_handler == trap_handler,
    {
        let mut cx = TrapContext {
            regs: [0u64; 32],
            sstatus: sstatus & !SSTATUS_SPP,
            sepc: entry,
            kernel_satp,
            kernel_sp,
            trap_handler,
        };
        assert(cx.regs@ =~= Seq::new(32, |i: int| 0u64));
        cx.set_sp(user_sp);
        cx
    }
}

} // verus!
