//! System calls.

pub mod fs;
pub mod process;

use vstd::prelude::*;
use crate::config::MAX_CPU_NUM;
use crate::error::KernelError;
use crate::kernel::{Kernel, INITPROC_PID};
use crate::syscall::fs::{
    buffer_bytes, buffer_readable, sys_read, sys_write, ReadOutcome, FD_STDIN, FD_STDOUT,
};
use crate::syscall::process::{
    any_match, exec_starved, exec_target, executed, first_zombie, fork_demand, forked, reaped,
    sys_exec, sys_exit, sys_fork, sys_get_time, sys_getpid, sys_sbrk,
    sys_waitpid, sys_yield,
};
use crate::task::processor::Processor;
use crate::task::task::TaskControlBlockInner;
use crate::task::{brk_starved, exit, exited, memory_changed, yielded, ExitAction};
use crate::timer::ms_of;

verus! {

pub const SYSCALL_READ: u64 = 63;

pub const SYSCALL_WRITE: u64 = 64;

pub const SYSCALL_EXIT: u64 = 93;

pub const SYSCALL_YIELD: u64 = 124;

pub const SYSCALL_GET_TIME: u64 = 169;

pub const SYSCALL_GETPID: u64 = 172;

pub const SYSCALL_FORK: u64 = 220;

pub const SYSCALL_EXEC: u64 = 221;

pub const SYSCALL_SBRK: u64 = 214;

pub const SYSCALL_WAITPID: u64 = 260;

/// The number under which a process could ask for `sys_get_taskinfo`. It
/// is not among the numbers that `syscall` serves: a call with it ends the
/// caller like any other unknown call.
pub const SYSCALL_GET_TASKINFO: u64 = 114514;

/// What the machine has told the kernel for the system call at hand.
#[derive(Clone, Copy, Debug)]
pub struct SyscallEnv {
    /// The byte the console has for reading, or 0 if it has none.
    pub console_char: u64,
    /// The count of the timer, in ticks.
    pub time: u64,
    /// The status register.
    pub sstatus: u64,
}

/// How a system call ended.
#[derive(Clone, Copy, Debug, PartialEq, Eq, Structural)]
pub enum SyscallOutcome {
    /// The call returns this value to the caller.
    Done(i64),
    /// The caller has given up its hart and is to repeat the call.
    Retry,
    /// The caller has exited.
    Exited(ExitAction),
}

/// Whether the hart remembers, and nothing else has changed.
pub open spec fn only_looked(old: &Kernel, new: &Kernel, hart: int) -> bool {
    let cpu = old.processors@[hart];
    &&& old.same_but_harts(new)
    &&& new.processors@ == old.processors@.update(hart, Processor { intena: cpu.interrupts, ..cpu })
}

/// What exiting with exit code `xcode` does; see [`exit`].
pub open spec fn exit_effect(old: &Kernel, new: &Kernel, hart: int, xcode: i32, action: ExitAction) -> bool {
    if old.processors@[hart].current == Some(INITPROC_PID) {
        action == ExitAction::Shutdown && only_looked(old, new, hart)
    } else {
        action == ExitAction::Switch && exited(old, new, hart, xcode)
    }
}

/// What the system call number `which` with arguments `args` does to the
/// kernel, and how it ends, when process `p` on hart `hart` makes it.
pub open spec fn syscall_effect(
    old: &Kernel,
    new: &Kernel,
    hart: int,
    which: u64,
    args: Seq<u64>,
    env: SyscallEnv,
    outcome: SyscallOutcome,
    console: Seq<u8>,
) -> bool {
    let cpu = old.processors@[hart];
    let p = cpu.current.unwrap();
    let before = old.procs()[p].inner;
    let after = new.procs()[p].inner;
    if which == SYSCALL_WRITE {
        &&& if args[0] == FD_STDOUT {
            &&& only_looked(old, new, hart)
            &&& if buffer_readable(old, p, args[1], args[2] as usize) && (args[2] as usize)
                <= i64::MAX {
                outcome == SyscallOutcome::Done((args[2] as usize) as i64) && console == buffer_bytes(
                    old,
                    p,
                    args[1],
                    args[2] as usize,
                )
            } else {
                outcome == SyscallOutcome::Done(-1i64) && console.len() == 0
            }
        } else {
            outcome == SyscallOutcome::Done(-1i64) && console.len() == 0 && *new == *old
        }
    } else {
        &&& console.len() == 0
        &&& if which == SYSCALL_READ {
            if args[0] != FD_STDIN || (args[2] as usize) != 1 {
                outcome == SyscallOutcome::Done(-1i64) && *new == *old
            } else if env.console_char == 0 {
                outcome == SyscallOutcome::Retry && yielded(old, new, hart)
            } else {
                &&& memory_changed(old, new, hart, p)
                &&& new.frame_allocator == old.frame_allocator
                &&& before.same_but_memory(&after)
                &&& after.program_brk == before.program_brk
                &&& after.memory_set@ == before.memory_set@
                &&& after.memory_set.areas() == before.memory_set.areas()
                &&& if crate::mm::page_table::mem_byte(
                    before.memory_set.table(),
                    args[1] as int,
                ).is_some() {
                    &&& outcome == SyscallOutcome::Done(1i64)
                    &&& crate::mm::page_table::mem_byte(after.memory_set.table(), args[1] as int)
                        == Some((env.console_char % 256) as u8)
                } else {
                    &&& outcome == SyscallOutcome::Done(-1i64)
                    &&& after.memory_set.frames() == before.memory_set.frames()
                }
            }
        } else if which == SYSCALL_EXIT {
            outcome matches SyscallOutcome::Exited(action) && exit_effect(
                old,
                new,
                hart,
                args[0] as i32,
                action,
            )
        } else if which == SYSCALL_YIELD {
            outcome == SyscallOutcome::Done(0i64) && yielded(old, new, hart)
        } else if which == SYSCALL_GET_TIME {
            outcome == SyscallOutcome::Done(ms_of(env.time) as i64) && *new == *old
        } else if which == SYSCALL_GETPID {
            outcome == SyscallOutcome::Done(p as i64) && only_looked(old, new, hart)
        } else if which == SYSCALL_FORK {
            outcome matches SyscallOutcome::Done(c) && 0 <= c && forked(old, new, hart, c as usize)
        } else if which == SYSCALL_EXEC {
            match exec_target(old, p, args[0]) {
                Some(file) => outcome == SyscallOutcome::Done(0i64) && executed(
                    old,
                    new,
                    hart,
                    file,
                    env.sstatus,
                ),
                None => outcome == SyscallOutcome::Done(-1i64) && only_looked(old, new, hart),
            }
        } else if which == SYSCALL_SBRK {
            &&& memory_changed(old, new, hart, p)
            &&& if before.brk_allowed(args[0] as i32, old.lazy_heap) {
                &&& outcome == SyscallOutcome::Done(before.program_brk as i64)
                &&& TaskControlBlockInner::brk_moved(&before, &after, args[0] as i32, old.lazy_heap)
            } else {
                &&& outcome == SyscallOutcome::Done(-1i64)
                &&& new.procs()[p] == old.procs()[p]
                &&& new.frame_allocator == old.frame_allocator
            }
        } else if which == SYSCALL_WAITPID {
            let kids = before.children@;
            match first_zombie(old.procs(), kids, args[0] as i64, kids.len() as int) {
                Some(i) => outcome == SyscallOutcome::Done(kids[i] as i64) && reaped(
                    old,
                    new,
                    hart,
                    kids[i],
                    i,
                    args[1],
                ),
                None => {
                    &&& outcome == SyscallOutcome::Done(
                        if any_match(kids, args[0] as i64) {
                            -2i64
                        } else {
                            -1i64
                        },
                    )
                    &&& only_looked(old, new, hart)
                },
            }
        } else {
            outcome matches SyscallOutcome::Exited(action) && exit_effect(old, new, hart, -1i32, action)
        }
    }
}

/// The error that system call `which` ends with, if any: a fork that
/// finds no identifier left, and a fork, an exec or a move of the heap end
/// for which the allocator has too few frames.
pub open spec fn syscall_failure(kernel: &Kernel, hart: int, which: u64, args: Seq<u64>) -> Option<
    KernelError,
> {
    if which == SYSCALL_FORK {
        if kernel.pid_allocator.next().is_none() {
            Some(KernelError::OutOfPids)
        } else if kernel.frame_allocator.free_count() < fork_demand(kernel, hart) {
            Some(KernelError::OutOfFrames)
        } else {
            None
        }
    } else if which == SYSCALL_EXEC && exec_starved(kernel, hart, args[0]) {
        Some(KernelError::OutOfFrames)
    } else if which == SYSCALL_SBRK && brk_starved(kernel, hart, args[0] as i32) {
        Some(KernelError::OutOfFrames)
    } else {
        None
    }
}

/// Carries out the system call number `which` with arguments `args` for
/// the process that hart `hart` runs. An unknown number ends the process
/// with exit code -1. Returns how the call ended, and the bytes it wrote
/// to the console. Fails exactly when identifiers or frames run out.
pub fn syscall(kernel: &mut Kernel, hart: usize, which: u64, args: [u64; 3], env: &SyscallEnv) -> (r:
    Result<(SyscallOutcome, Vec<u8>), KernelError>)
    requires
        old(kernel).wf(),
        hart < MAX_CPU_NUM,
        old(kernel).processors@[hart as int].current.is_some(),
    ensures
        r.is_err() <==> syscall_failure(old(kernel), hart as int, which, args@).is_some(),
        r matches Err(e) ==> syscall_failure(old(kernel), hart as int, which, args@) == Some(e),
        r matches Ok((outcome, console)) ==> final(kernel).wf() && syscall_effect(
            old(kernel),
            final(kernel),
            hart as int,
            which,
            args@,
            *env,
            outcome,
            console@,
        ),
{
    let none: Vec<u8> = Vec::new();
    if which == SYSCALL_WRITE {
        let (code, console) = sys_write(
            kernel,
            hart,
            args[0],
            args[1],
            #[verifier::truncate] (args[2] as usize),
        );
        return Ok((SyscallOutcome::Done(code), console));
    }
    if which == SYSCALL_READ {
        let outcome = match sys_read(
            kernel,
            hart,
            args[0],
            args[1],
            #[verifier::truncate] (args[2] as usize),
            env.console_char,
        ) {
            ReadOutcome::Done(code) => SyscallOutcome::Done(code),
            ReadOutcome::Retry => SyscallOutcome::Retry,
        };
        return Ok((outcome, none));
    }
    if which == SYSCALL_EXIT {
        let action = sys_exit(kernel, hart, #[verifier::truncate] (args[0] as i32));
        return Ok((SyscallOutcome::Exited(action), none));
    }
    if which == SYSCALL_YIELD {
        return Ok((SyscallOutcome::Done(sys_yield(kernel, hart)), none));
    }
    if which == SYSCALL_GET_TIME {
        return Ok((SyscallOutcome::Done(sys_get_time(env.time)), none));
    }
    if which == SYSCALL_GETPID {
        return Ok((SyscallOutcome::Done(sys_getpid(kernel, hart)), none));
    }
    if which == SYSCALL_FORK {
        return match sys_fork(kernel, hart) {
            Ok(c) => Ok((SyscallOutcome::Done(c), none)),
            Err(e) => Err(e),
        };
    }
    if which == SYSCALL_EXEC {
        return match sys_exec(kernel, hart, args[0], env.sstatus) {
            Ok(code) => Ok((SyscallOutcome::Done(code), none)),
            Err(e) => Err(e),
        };
    }
    if which == SYSCALL_SBRK {
        return match sys_sbrk(kernel, hart, #[verifier::truncate] (args[0] as i32)) {
            Ok(code) => Ok((SyscallOutcome::Done(code), none)),
            Err(e) => Err(e),
        };
    }
    if which == SYSCALL_WAITPID {
        let code = sys_waitpid(kernel, hart, #[verifier::truncate] (args[0] as i64), args[1]);
        return Ok((SyscallOutcome::Done(code), none));
    }
    let action = exit(kernel, hart, -1);
    Ok((SyscallOutcome::Exited(action), none))
}

} // verus!
