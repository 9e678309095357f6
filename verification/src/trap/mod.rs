//! Traps: the saved context of a user program and the handling of each cause.

pub mod cause;
pub mod context;

use vstd::prelude::*;
use crate::common::{intr_get, intr_off, intr_on};
use crate::config::{MAX_CPU_NUM, TRAP_CONTEXT};
use crate::error::KernelError;
use crate::kernel::{Kernel, INITPROC_PID};
use crate::mm::address::{VirtAddr, VirtPageNum};
use crate::mm::flags::{FLAG_C, FLAG_R};
use crate::mm::memory_set::MemorySet;
use crate::syscall::{
    exit_effect, only_looked, syscall, syscall_effect, syscall_failure, SyscallEnv, SyscallOutcome,
};
use crate::task::processor::{current_cpu, Processor};
use crate::task::task::{TaskControlBlock, TaskControlBlockInner, TaskStatus};
use crate::task::{
    exit, exited, get_current_task, get_current_token, lazy_alloc_page, memory_changed, yield_,
    yielded, ExitAction,
};
use crate::trap::cause::{cause, cause_of, ExceptionKind, InterruptKind, Trap};
use crate::trap::context::{TrapContext, REG_A0, REG_A1, REG_A2, REG_A7};

verus! {

/// What the hart is to do once a trap is handled.
#[derive(Clone, Copy, Debug, PartialEq, Eq, Structural)]
pub enum TrapAction {
    /// Return to user mode through the trampoline, with the trap context
    /// at virtual address `trap_cx_va` of the address space `user_satp`.
    Return { trap_cx_va: u64, user_satp: u64 },
    /// Go on with the scheduler of the hart.
    Schedule,
    /// Shut the machine down.
    Shutdown,
}

/// The result of handling a trap from user mode.
pub struct TrapOutcome {
    pub action: TrapAction,
    /// Bytes to print on the console.
    pub console: Vec<u8>,
    /// Whether the timer is to be programmed for the next tick.
    pub set_timer: bool,
}

/// What a trap in kernel mode leads to.
#[derive(Clone, Copy, Debug, PartialEq, Eq, Structural)]
pub enum KernelTrap {
    /// The kernel cannot go on.
    Fatal,
    /// The timer is to be programmed for the next tick; the process that
    /// the hart ran has given up the hart.
    Yielded,
}

/// Whether process `pid` has trap context `cx` in `new` and all else is as in `old`.
pub open spec fn trap_cx_set(old: &Kernel, new: &Kernel, pid: usize, cx: TrapContext) -> bool {
    &&& new.layout == old.layout
    &&& new.entries == old.entries
    &&& new.lazy_heap == old.lazy_heap
    &&& new.frame_allocator == old.frame_allocator
    &&& new.kernel_space == old.kernel_space
    &&& new.pid_allocator == old.pid_allocator
    &&& new.apps == old.apps
    &&& new.task_manager@ == old.task_manager@
    &&& new.processors@ == old.processors@
    &&& new.procs() == old.procs().insert(
        pid,
        TaskControlBlock {
            inner: TaskControlBlockInner { trap_cx: cx, ..old.procs()[pid].inner },
            ..old.procs()[pid]
        },
    )
}

/// Gives process `pid`, which has not exited, the trap context `cx`.
pub fn set_trap_cx(kernel: &mut Kernel, pid: usize, cx: TrapContext)
    requires
        old(kernel).sound(),
        old(kernel).procs().contains_key(pid),
        old(kernel).procs()[pid].inner.task_status != TaskStatus::Zombie,
    ensures
        final(kernel).sound(),
        trap_cx_set(old(kernel), final(kernel), pid, cx),
{
    let ghost k0 = *kernel;
    let mut task = kernel.tasks.remove(&pid).unwrap();
    task.inner.trap_cx = cx;
    kernel.tasks.insert(pid, task);
    proof {
        assert(kernel.procs() =~= k0.procs().insert(
            pid,
            TaskControlBlock {
                inner: TaskControlBlockInner { trap_cx: cx, ..k0.procs()[pid].inner },
                ..k0.procs()[pid]
            },
        ));
        assert(kernel.procs().dom() =~= k0.procs().dom());
        Kernel::lemma_task_updated(&k0, kernel, pid);
    }
}

/// What leaving for user mode does to hart `hart`: it takes no interrupts
/// and remembers that it took none.
pub open spec fn returned(old: &Kernel, new: &Kernel, hart: int) -> bool {
    &&& old.same_but_harts(new)
    &&& new.processors@ == old.processors@.update(
        hart,
        Processor { interrupts: false, intena: false, ..old.processors@[hart] },
    )
}

/// The address of the trap context and the `satp` value of the process
/// that hart `hart` runs, to leave for user mode with.
pub open spec fn return_target(kernel: &Kernel, hart: int) -> (u64, u64) {
    let pid = kernel.processors@[hart].current.unwrap();
    (
        TRAP_CONTEXT,
        (0x8000_0000_0000_0000 + kernel.procs()[pid].inner.memory_set.table().root()) as u64,
    )
}

/// Prepares hart `hart` to leave for user mode: interrupts go off. Returns
/// what the trampoline needs: the virtual address of the trap context and
/// the `satp` value of the process that the hart runs.
pub fn trap_return(kernel: &mut Kernel, hart: usize) -> (r: (u64, u64))
    requires
        old(kernel).wf(),
        hart < MAX_CPU_NUM,
        old(kernel).processors@[hart as int].current.is_some(),
    ensures
        final(kernel).wf(),
        returned(old(kernel), final(kernel), hart as int),
        r == return_target(old(kernel), hart as int),
{
    let ghost k0 = *kernel;
    let mut cpu = kernel.take_cpu(hart);
    intr_off(&mut cpu);
    kernel.put_cpu(hart, cpu);
    proof {
        Kernel::lemma_interrupts_changed(&k0, kernel, hart as int);
        assert forall|h: int| 0 <= h < kernel.processors@.len() implies (
        #[trigger] kernel.processors@[h]).noff == 0 by {
            if h != hart {
                assert(kernel.processors@[h] == k0.processors@[h]);
            }
        }
    }
    let user_satp = get_current_token(kernel, hart);
    proof {
        assert(kernel.processors@ =~= k0.processors@.update(
            hart as int,
            Processor { interrupts: false, intena: false, ..k0.processors@[hart as int] },
        ));
    }
    (TRAP_CONTEXT, user_satp)
}

/// Where a freshly forked process enters the kernel: it leaves for user
/// mode at once; see [`trap_return`].
pub fn fork_ret(kernel: &mut Kernel, hart: usize) -> (r: (u64, u64))
    requires
        old(kernel).wf(),
        hart < MAX_CPU_NUM,
        old(kernel).processors@[hart as int].current.is_some(),
    ensures
        final(kernel).wf(),
        returned(old(kernel), final(kernel), hart as int),
        r == return_target(old(kernel), hart as int),
{
    let ghost k0 = *kernel;
    let _cur_task = get_current_task(kernel, hart);
    let r = trap_return(kernel, hart);
    proof {
        assert(kernel.processors@ =~= k0.processors@.update(
            hart as int,
            Processor { interrupts: false, intena: false, ..k0.processors@[hart as int] },
        ));
    }
    r
}

/// What entering a system call does: the trap context of the calling
/// process `pid` continues after the call instruction, and the hart takes
/// interrupts.
pub open spec fn entered(old: &Kernel, new: &Kernel, hart: int) -> bool {
    let cpu = old.processors@[hart];
    let pid = cpu.current.unwrap();
    let cx = old.procs()[pid].inner.trap_cx;
    &&& new.layout == old.layout
    &&& new.entries == old.entries
    &&& new.lazy_heap == old.lazy_heap
    &&& new.frame_allocator == old.frame_allocator
    &&& new.kernel_space == old.kernel_space
    &&& new.pid_allocator == old.pid_allocator
    &&& new.apps == old.apps
    &&& new.task_manager@ == old.task_manager@
    &&& new.processors@ == old.processors@.update(
        hart,
        Processor { interrupts: true, intena: cpu.interrupts, ..cpu },
    )
    &&& new.procs() == old.procs().insert(
        pid,
        TaskControlBlock {
            inner: TaskControlBlockInner {
                trap_cx: TrapContext { sepc: ((cx.sepc + 4) % 0x1_0000_0000_0000_0000) as u64, ..cx },
                ..old.procs()[pid].inner
            },
            ..old.procs()[pid]
        },
    )
}

/// What the end of a system call with `outcome` does to the trap context
/// of the caller `pid`: a value goes into its register `a0`; a call to be
/// repeated puts it back before the call instruction, at `sepc`.
pub open spec fn wrote(
    old: &Kernel,
    new: &Kernel,
    pid: usize,
    sepc: u64,
    outcome: SyscallOutcome,
) -> bool {
    let cx = old.procs()[pid].inner.trap_cx;
    let cx1 = new.procs()[pid].inner.trap_cx;
    match outcome {
        SyscallOutcome::Done(value) => {
            &&& old.procs().contains_key(pid)
            &&& trap_cx_set(old, new, pid, cx1)
            &&& cx1.regs@ == cx.regs@.update(REG_A0 as int, value as u64)
            &&& cx1.sstatus == cx.sstatus
            &&& cx1.sepc == cx.sepc
            &&& cx1.kernel_satp == cx.kernel_satp
            &&& cx1.kernel_sp == cx.kernel_sp
            &&& cx1.trap_handler == cx.trap_handler
        },
        SyscallOutcome::Retry => {
            &&& old.procs().contains_key(pid)
            &&& trap_cx_set(old, new, pid, TrapContext { sepc, ..cx })
        },
        SyscallOutcome::Exited(_) => *new == *old,
    }
}

/// Where hart `hart` goes after a system call of process `pid` that ended
/// with `outcome`: back to the caller if the hart still runs it, else on
/// with its scheduler, or down with the first process.
pub open spec fn finished(
    old: &Kernel,
    new: &Kernel,
    hart: int,
    pid: usize,
    outcome: SyscallOutcome,
    action: TrapAction,
) -> bool {
    if outcome is Done && old.processors@[hart].current == Some(pid) {
        &&& returned(old, new, hart)
        &&& action == (TrapAction::Return {
            trap_cx_va: return_target(old, hart).0,
            user_satp: return_target(old, hart).1,
        })
    } else {
        &&& *new == *old
        &&& action == (if outcome == SyscallOutcome::Exited(ExitAction::Shutdown) {
            TrapAction::Shutdown
        } else {
            TrapAction::Schedule
        })
    }
}

/// The steps of a system call, from the trap to the action of the hart:
/// enter, carry the call out, put its result into the caller's trap
/// context, and decide where the hart goes.
pub open spec fn syscall_chain(
    old: &Kernel,
    k1: &Kernel,
    k2: &Kernel,
    k3: &Kernel,
    new: &Kernel,
    hart: int,
    env: SyscallEnv,
    outcome: SyscallOutcome,
    action: TrapAction,
    console: Seq<u8>,
) -> bool {
    let pid = old.processors@[hart].current.unwrap();
    let cx = old.procs()[pid].inner.trap_cx;
    &&& k1.wf() && k2.wf() && k3.wf()
    &&& entered(old, k1, hart)
    &&& syscall_effect(
        k1,
        k2,
        hart,
        cx.regs@[REG_A7 as int],
        seq![cx.regs@[REG_A0 as int], cx.regs@[REG_A1 as int], cx.regs@[REG_A2 as int]],
        env,
        outcome,
        console,
    )
    &&& wrote(k2, k3, pid, cx.sepc, outcome)
    &&& finished(k3, new, hart, pid, outcome, action)
}

/// Whether a fault at address `stval` of process `pid` is one that the
/// kernel mends by giving the heap a page: pages are given lazily, the
/// address lies in the heap, and no page is mapped there yet.
pub open spec fn mendable(kernel: &Kernel, pid: usize, stval: u64) -> bool {
    let inner = kernel.procs()[pid].inner;
    &&& kernel.lazy_heap
    &&& inner.heap_bottom <= stval < inner.program_brk
    &&& !inner.memory_set@.contains_key((stval % 0x80_0000_0000) / 4096)
}

/// The error that the system call of the process on hart `hart` ends
/// with, if any; the call is the one that its trap context holds.
pub open spec fn syscall_trap_failure(kernel: &Kernel, hart: int) -> Option<KernelError> {
    let pid = kernel.processors@[hart].current.unwrap();
    let cx = kernel.procs()[pid].inner.trap_cx;
    syscall_failure(
        kernel,
        hart,
        cx.regs@[REG_A7 as int],
        seq![cx.regs@[REG_A0 as int], cx.regs@[REG_A1 as int], cx.regs@[REG_A2 as int]],
    )
}

/// The error that a fault at address `stval` ends with, if any: the fault
/// is one to mend, and the allocator has fewer frames than the page takes.
pub open spec fn fault_failure(kernel: &Kernel, hart: int, stval: u64) -> Option<KernelError> {
    let pid = kernel.processors@[hart].current.unwrap();
    if mendable(kernel, pid, stval) && kernel.frame_allocator.free_count()
        < kernel.procs()[pid].inner.page_demand(VirtAddr((stval % 0x80_0000_0000) as u64)) {
        Some(KernelError::OutOfFrames)
    } else {
        None
    }
}

/// The error that a trap with cause register `scause` and fault address
/// `stval` ends with, if any.
pub open spec fn trap_failure(kernel: &Kernel, hart: int, scause: u64, stval: u64) -> Option<
    KernelError,
> {
    match cause_of(scause) {
        Trap::Exception(ExceptionKind::UserEnvCall) => syscall_trap_failure(kernel, hart),
        Trap::Exception(ExceptionKind::StoreFault)
        | Trap::Exception(ExceptionKind::StorePageFault)
        | Trap::Exception(ExceptionKind::LoadFault)
        | Trap::Exception(ExceptionKind::LoadPageFault) => fault_failure(kernel, hart, stval),
        _ => None,
    }
}

/// What a trap with cause register `scause` and fault address `stval` does
/// to the kernel when hart `hart` takes it from user mode, and what the
/// hart is to do then.
pub open spec fn trap_effect(
    old: &Kernel,
    new: &Kernel,
    hart: int,
    scause: u64,
    stval: u64,
    env: SyscallEnv,
    action: TrapAction,
    console: Seq<u8>,
    set_timer: bool,
) -> bool {
    let pid = old.processors@[hart].current.unwrap();
    match cause_of(scause) {
        Trap::Exception(ExceptionKind::UserEnvCall) => {
            &&& !set_timer
            &&& syscall_trap_effect(old, new, hart, env, action, console)
        },
        Trap::Exception(ExceptionKind::StoreFault)
        | Trap::Exception(ExceptionKind::StorePageFault)
        | Trap::Exception(ExceptionKind::LoadFault)
        | Trap::Exception(ExceptionKind::LoadPageFault) => {
            &&& !set_timer
            &&& console.len() == 0
            &&& fault_effect(old, new, hart, stval, action)
        },
        Trap::Exception(ExceptionKind::IllegalInstruction) => {
            &&& !set_timer
            &&& console.len() == 0
            &&& exists|act: ExitAction| #[trigger]
                exit_effect(old, new, hart, -3i32, act) && action == exit_action(act)
        },
        Trap::Interrupt(InterruptKind::SupervisorTimer) => {
            &&& set_timer
            &&& console.len() == 0
            &&& yielded(old, new, hart)
            &&& action == TrapAction::Schedule
        },
        _ => {
            &&& !set_timer
            &&& console.len() == 0
            &&& exists|act: ExitAction| #[trigger]
                exit_effect(old, new, hart, -1i32, act) && action == exit_action(act)
        },
    }
}

/// What the hart does after a process has exited.
pub open spec fn exit_action(act: ExitAction) -> TrapAction {
    match act {
        ExitAction::Shutdown => TrapAction::Shutdown,
        ExitAction::Switch => TrapAction::Schedule,
    }
}

/// What mending a fault does: page `v` of process `pid` is mapped to a
/// fresh zeroed frame, readable and writable from user mode.
pub open spec fn mended(old: &Kernel, new: &Kernel, hart: int, pid: usize, v: u64) -> bool {
    let inner = old.procs()[pid].inner;
    let ms = new.procs()[pid].inner.memory_set;
    &&& memory_changed(old, new, hart, pid)
    &&& inner.same_but_memory(&new.procs()[pid].inner)
    &&& new.procs()[pid].inner.program_brk == inner.program_brk
    &&& ms.areas().contains_key(v)
    &&& MemorySet::single_page(ms.areas()[v])
    &&& ms.areas()[v].perm().bits == 22
    &&& MemorySet::pushed(&inner.memory_set, &ms, ms.areas()[v], None)
}

/// What a system call trap does; see [`trap_effect`].
pub open spec fn syscall_trap_effect(
    old: &Kernel,
    new: &Kernel,
    hart: int,
    env: SyscallEnv,
    action: TrapAction,
    console: Seq<u8>,
) -> bool {
    exists|k1: Kernel, k2: Kernel, k3: Kernel, outcome: SyscallOutcome| #[trigger]
        syscall_chain(old, &k1, &k2, &k3, new, hart, env, outcome, action, console)
}

/// What a fault at address `stval` does; see [`trap_effect`].
pub open spec fn fault_effect(old: &Kernel, new: &Kernel, hart: int, stval: u64, action: TrapAction) -> bool {
    let pid = old.processors@[hart].current.unwrap();
    if mendable(old, pid, stval) {
        let v = ((stval % 0x80_0000_0000) / 4096) as u64;
        exists|mid: Kernel| #[trigger]
            mended(old, &mid, hart, pid, v) && mid.wf() && returned(&mid, new, hart) && action == (
            TrapAction::Return {
                trap_cx_va: return_target(&mid, hart).0,
                user_satp: return_target(&mid, hart).1,
            })
    } else {
        exists|act: ExitAction| #[trigger]
            exit_effect(old, new, hart, -2i32, act) && action == exit_action(act)
    }
}

/// Carries out the system call that the process on hart `hart` trapped
/// with, and puts its result into the caller's register `a0`.
fn handle_syscall(kernel: &mut Kernel, hart: usize, env: &SyscallEnv) -> (r: Result<
    (TrapAction, Vec<u8>),
    KernelError,
>)
    requires
        old(kernel).wf(),
        hart < MAX_CPU_NUM,
        old(kernel).processors@[hart as int].current.is_some(),
    ensures
        r.is_err() <==> syscall_trap_failure(old(kernel), hart as int).is_some(),
        r matches Err(e) ==> syscall_trap_failure(old(kernel), hart as int) == Some(e),
        r matches Ok((action, console)) ==> final(kernel).wf() && syscall_trap_effect(
            old(kernel),
            final(kernel),
            hart as int,
            *env,
            action,
            console@,
        ),
{
    let ghost k0 = *kernel;
    let pid = current_cpu(kernel, hart).current().unwrap();
    let cx = *kernel.tasks.get(&pid).unwrap().inner.get_trap_cx();
    let mut next = cx;
    next.sepc = cx.sepc.wrapping_add(4);
    set_trap_cx(kernel, pid, next);
    let ghost ka = *kernel;
    let mut cpu = kernel.take_cpu(hart);
    let was = intr_get(&cpu);
    intr_on(&mut cpu);
    cpu.intena = was;
    kernel.put_cpu(hart, cpu);
    let ghost k1 = *kernel;
    proof {
        Kernel::lemma_interrupts_changed(&ka, &k1, hart as int);
        assert(k1.wf()) by {
            assert forall|h: int| 0 <= h < k1.processors@.len() implies (
            #[trigger] k1.processors@[h]).noff == 0 by {
                if h != hart {
                    assert(k1.processors@[h] == k0.processors@[h]);
                }
            }
        }
        assert(k1.processors@ =~= k0.processors@.update(
            hart as int,
            Processor {
                interrupts: true,
                intena: k0.processors@[hart as int].interrupts,
                ..k0.processors@[hart as int]
            },
        ));
        assert(entered(&k0, &k1, hart as int));
    }
    let args: [u64; 3] = [cx.regs[REG_A0], cx.regs[REG_A1], cx.regs[REG_A2]];
    assert(args@ =~= seq![
        cx.regs@[REG_A0 as int],
        cx.regs@[REG_A1 as int],
        cx.regs@[REG_A2 as int],
    ]);
    let (outcome, console) = match syscall(kernel, hart, cx.regs[REG_A7], args, env) {
        Ok(done) => done,
        Err(e) => {
            return Err(e);
        },
    };
    let ghost k2 = *kernel;
    put_result(kernel, hart, pid, cx.sepc, outcome, Ghost(k1), Ghost(cx.regs@[REG_A7 as int]), Ghost(args@), Ghost(*env), Ghost(console@));
    let ghost k3 = *kernel;
    let action = finish(kernel, hart, pid, outcome);
    proof {
        assert(syscall_chain(&k0, &k1, &k2, &k3, kernel, hart as int, *env, outcome, action, console@));
    }
    Ok((action, console))
}

/// Puts the result of a system call into the trap context of its caller.
fn put_result(
    kernel: &mut Kernel,
    hart: usize,
    pid: usize,
    sepc: u64,
    outcome: SyscallOutcome,
    Ghost(k1): Ghost<Kernel>,
    Ghost(which): Ghost<u64>,
    Ghost(args): Ghost<Seq<u64>>,
    Ghost(env): Ghost<SyscallEnv>,
    Ghost(console): Ghost<Seq<u8>>,
)
    requires
        old(kernel).wf(),
        k1.wf(),
        hart < MAX_CPU_NUM,
        k1.processors@[hart as int].current == Some(pid),
        syscall_effect(&k1, old(kernel), hart as int, which, args, env, outcome, console),
    ensures
        final(kernel).wf(),
        wrote(old(kernel), final(kernel), pid, sepc, outcome),
{
    match outcome {
        SyscallOutcome::Done(value) => {
            proof {
                lemma_caller_alive(&k1, old(kernel), hart as int, which, args, env, value, console);
            }
            let mut after = *kernel.tasks.get(&pid).unwrap().inner.get_trap_cx();
            after.set_reg(REG_A0, value as u64);
            set_trap_cx(kernel, pid, after);
        },
        SyscallOutcome::Retry => {
            proof {
                assert(k1.procs().contains_key(pid));
                assert(yielded(&k1, old(kernel), hart as int));
                assert(old(kernel).procs().dom().contains(pid));
            }
            let mut after = *kernel.tasks.get(&pid).unwrap().inner.get_trap_cx();
            after.sepc = sepc;
            set_trap_cx(kernel, pid, after);
        },
        SyscallOutcome::Exited(_) => {},
    }
}

/// Decides where hart `hart` goes after a system call of process `pid`.
fn finish(kernel: &mut Kernel, hart: usize, pid: usize, outcome: SyscallOutcome) -> (action:
    TrapAction)
    requires
        old(kernel).wf(),
        hart < MAX_CPU_NUM,
    ensures
        final(kernel).wf(),
        finished(old(kernel), final(kernel), hart as int, pid, outcome, action),
{
    let still = match current_cpu(kernel, hart).current() {
        Some(q) => q == pid,
        None => false,
    };
    match outcome {
        SyscallOutcome::Done(_) => {
            if still {
                let (trap_cx_va, user_satp) = trap_return(kernel, hart);
                TrapAction::Return { trap_cx_va, user_satp }
            } else {
                TrapAction::Schedule
            }
        },
        SyscallOutcome::Retry => TrapAction::Schedule,
        SyscallOutcome::Exited(ExitAction::Shutdown) => TrapAction::Shutdown,
        SyscallOutcome::Exited(ExitAction::Switch) => TrapAction::Schedule,
    }
}

/// Whether address `stval` of process `pid` lies on a page that is mapped
/// readable and marked as shared until written to.
pub open spec fn shared_page(kernel: &Kernel, pid: usize, stval: u64) -> bool {
    let v = ((stval % 0x80_0000_0000) / 4096) as u64;
    let ms = kernel.procs()[pid].inner.memory_set;
    ms@.contains_key(v) && ms@[v].has(FLAG_R) && ms@[v].has(FLAG_C)
}

/// Whether a fault at address `stval` of process `pid` is one on a page
/// that is shared until written to.
fn on_shared_page(kernel: &Kernel, pid: usize, stval: u64) -> (r: bool)
    requires
        kernel.wf(),
        kernel.procs().contains_key(pid),
        kernel.procs()[pid].inner.task_status != TaskStatus::Zombie,
    ensures
        r == shared_page(kernel, pid, stval),
{
    let inner = &kernel.tasks.get(&pid).unwrap().inner;
    proof {
        inner.memory_set.table().lemma_inv_facts();
    }
    match inner.memory_set.translate(VirtAddr::from(stval).floor()) {
        Some(pte) => pte.is_valid() && pte.is_readable() && pte.is_cow_page(),
        None => false,
    }
}

/// Handles a load or store fault at address `stval` of the process on
/// hart `hart`: a fault in the heap gets a page where pages are given
/// lazily; any other fault ends the process with exit code -2.
fn handle_fault(kernel: &mut Kernel, hart: usize, stval: u64) -> (r: Result<TrapAction, KernelError>)
    requires
        old(kernel).wf(),
        hart < MAX_CPU_NUM,
        old(kernel).processors@[hart as int].current.is_some(),
    ensures
        r.is_err() <==> fault_failure(old(kernel), hart as int, stval).is_some(),
        r matches Err(e) ==> fault_failure(old(kernel), hart as int, stval) == Some(e),
        r matches Ok(action) ==> final(kernel).wf() && fault_effect(
            old(kernel),
            final(kernel),
            hart as int,
            stval,
            action,
        ),
{
    let ghost k0 = *kernel;
    let pid = current_cpu(kernel, hart).current().unwrap();
    let in_heap = {
        let inner = &kernel.tasks.get(&pid).unwrap().inner;
        stval >= inner.heap_bottom && stval < inner.program_brk
    };
    let ok = if in_heap {
        if kernel.lazy_heap {
            match lazy_alloc_page(kernel, hart, VirtAddr::from(stval)) {
                Ok(mapped) => mapped,
                Err(e) => {
                    return Err(e);
                },
            }
        } else {
            false
        }
    } else if on_shared_page(kernel, pid, stval) {
        // Where the page would be duplicated. No page is shared yet, so
        // the fault ends the process like any other.
        false
    } else {
        false
    };
    let ghost mid = *kernel;
    if ok {
        let (trap_cx_va, user_satp) = trap_return(kernel, hart);
        proof {
            let v = ((stval % 0x80_0000_0000) / 4096) as u64;
            assert(mendable(&k0, pid, stval));
            assert(mended(&k0, &mid, hart as int, pid, v));
        }
        Ok(TrapAction::Return { trap_cx_va, user_satp })
    } else {
        proof {
            assert(!mendable(&k0, pid, stval));
            if in_heap && k0.lazy_heap {
                assert(mid.procs() =~= k0.procs());
                assert(only_looked(&k0, &mid, hart as int));
            } else {
                assert(mid == k0);
            }
        }
        let act = exit(kernel, hart, -2);
        proof {
            lemma_exit_after_look(&k0, &mid, kernel, hart as int, -2i32, act);
        }
        Ok(
            match act {
                ExitAction::Shutdown => TrapAction::Shutdown,
                ExitAction::Switch => TrapAction::Schedule,
            },
        )
    }
}

/// Handles a trap that hart `hart` took from user mode while running a
/// process: `scause` and `stval` are the cause and fault address registers.
/// A system call is carried out and its result put into the caller's
/// register `a0`. A fault in the heap is mended where pages are given
/// lazily; any other fault ends the process with exit code -2, an illegal
/// instruction with -3, an unknown cause with -1. A timer interrupt makes
/// the process give up the hart. Fails exactly when identifiers or frames
/// run out.
pub fn trap_handler(kernel: &mut Kernel, hart: usize, scause: u64, stval: u64, env: &SyscallEnv) -> (r:
    Result<TrapOutcome, KernelError>)
    requires
        old(kernel).wf(),
        hart < MAX_CPU_NUM,
        old(kernel).processors@[hart as int].current.is_some(),
    ensures
        r.is_err() <==> trap_failure(old(kernel), hart as int, scause, stval).is_some(),
        r matches Err(e) ==> trap_failure(old(kernel), hart as int, scause, stval) == Some(e),
        r matches Ok(out) ==> final(kernel).wf() && trap_effect(
            old(kernel),
            final(kernel),
            hart as int,
            scause,
            stval,
            *env,
            out.action,
            out.console@,
            out.set_timer,
        ),
{
    let ghost k0 = *kernel;
    let none: Vec<u8> = Vec::new();
    match cause(scause) {
        Trap::Exception(ExceptionKind::UserEnvCall) => {
            match handle_syscall(kernel, hart, env) {
                Ok((action, console)) => Ok(TrapOutcome { action, console, set_timer: false }),
                Err(e) => Err(e),
            }
        },
        Trap::Exception(ExceptionKind::StoreFault)
        | Trap::Exception(ExceptionKind::StorePageFault)
        | Trap::Exception(ExceptionKind::LoadFault)
        | Trap::Exception(ExceptionKind::LoadPageFault) => {
            match handle_fault(kernel, hart, stval) {
                Ok(action) => Ok(TrapOutcome { action, console: none, set_timer: false }),
                Err(e) => Err(e),
            }
        },
        Trap::Exception(ExceptionKind::IllegalInstruction) => {
            let act = exit(kernel, hart, -3);
            proof {
                assert(exit_effect(&k0, kernel, hart as int, -3i32, act));
            }
            Ok(
                TrapOutcome {
                    action: match act {
                        ExitAction::Shutdown => TrapAction::Shutdown,
                        ExitAction::Switch => TrapAction::Schedule,
                    },
                    console: none,
                    set_timer: false,
                },
            )
        },
        Trap::Interrupt(InterruptKind::SupervisorTimer) => {
            yield_(kernel, hart);
            Ok(TrapOutcome { action: TrapAction::Schedule, console: none, set_timer: true })
        },
        _ => {
            let act = exit(kernel, hart, -1);
            proof {
                assert(exit_effect(&k0, kernel, hart as int, -1i32, act));
            }
            Ok(
                TrapOutcome {
                    action: match act {
                        ExitAction::Shutdown => TrapAction::Shutdown,
                        ExitAction::Switch => TrapAction::Schedule,
                    },
                    console: none,
                    set_timer: false,
                },
            )
        },
    }
}

/// A system call that returns a value leaves its caller alive.
proof fn lemma_caller_alive(
    k1: &Kernel,
    k2: &Kernel,
    hart: int,
    which: u64,
    args: Seq<u64>,
    env: SyscallEnv,
    value: i64,
    console: Seq<u8>,
)
    requires
        k1.wf(),
        k2.wf(),
        0 <= hart < k1.processors@.len(),
        k1.processors@[hart].current.is_some(),
        syscall_effect(k1, k2, hart, which, args, env, SyscallOutcome::Done(value), console),
    ensures
        k2.procs().contains_key(k1.processors@[hart].current.unwrap()),
        k2.procs()[k1.processors@[hart].current.unwrap()].inner.task_status != TaskStatus::Zombie,
        k2.processors@[hart].current.is_some() ==> k2.processors@[hart].current
            == k1.processors@[hart].current,
{
    let p = k1.processors@[hart].current.unwrap();
    assert(k1.procs().contains_key(p));
    assert(k1.procs()[p].inner.task_status == TaskStatus::Running);
    if which == crate::syscall::SYSCALL_WAITPID {
        let kids = k1.procs()[p].inner.children@;
        crate::syscall::process::lemma_reaped_child(k1.procs(), kids, args[0] as i64, p);
    }
}

/// Exiting after the kernel has only looked at the hart is exiting at once.
proof fn lemma_exit_after_look(
    k0: &Kernel,
    mid: &Kernel,
    k1: &Kernel,
    hart: int,
    xcode: i32,
    act: ExitAction,
)
    requires
        0 <= hart < k0.processors@.len(),
        only_looked(k0, mid, hart) || *mid == *k0,
        exit_effect(mid, k1, hart, xcode, act),
    ensures
        exit_effect(k0, k1, hart, xcode, act),
{
    let c0 = k0.processors@[hart];
    if only_looked(k0, mid, hart) {
        assert(k1.processors@ =~= k0.processors@.update(
            hart,
            if act == ExitAction::Shutdown {
                Processor { intena: c0.interrupts, ..c0 }
            } else {
                Processor { current: None, intena: c0.interrupts, ..c0 }
            },
        ));
    }
}

/// Handles a trap that hart `hart` took in kernel mode. Only a timer
/// interrupt while a process runs and interrupts are off can be handled:
/// the process gives up the hart. Anything else is fatal.
pub fn trap_from_kernel(kernel: &mut Kernel, hart: usize, scause: u64) -> (r: KernelTrap)
    requires
        old(kernel).wf(),
        hart < MAX_CPU_NUM,
    ensures
        final(kernel).wf(),
        r == KernelTrap::Yielded <==> !old(kernel).processors@[hart as int].interrupts && cause_of(
            scause,
        ) == Trap::Interrupt(InterruptKind::SupervisorTimer) && old(
            kernel,
        ).processors@[hart as int].current.is_some(),
        r == KernelTrap::Yielded ==> yielded(old(kernel), final(kernel), hart as int),
        r == KernelTrap::Fatal ==> *final(kernel) == *old(kernel),
{
    if intr_get(current_cpu(kernel, hart)) {
        return KernelTrap::Fatal;
    }
    match cause(scause) {
        Trap::Interrupt(InterruptKind::SupervisorTimer) => {
            if current_cpu(kernel, hart).current().is_none() {
                return KernelTrap::Fatal;
            }
            yield_(kernel, hart);
            KernelTrap::Yielded
        },
        _ => KernelTrap::Fatal,
    }
}

} // verus!
