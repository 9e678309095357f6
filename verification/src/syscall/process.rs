//! The system calls that concern processes.

use vstd::prelude::*;
use crate::config::{MAX_CPU_NUM, PID_LIMIT};
use crate::error::KernelError;
use crate::kernel::{
    family_inv, frames_inv, lemma_frames_kernel_changed, lemma_frames_task_removed, owned_map,
    sched_inv, stacks_inv, Kernel,
};
use crate::mm::memory_set::{
    foreign, le_bytes, trampoline_vpn, translated_copyout, unmapped_range, MapType, MemorySet,
};
use crate::loader::first_named;
use crate::mm::elf::elf_image_of;
use crate::mm::page_table::{mem_byte, translate_str, user_str};
use crate::mm::user_space::{
    full_plan, image_demand, image_ok, is_image_of, layout_ok, LoadError,
};
use crate::task::manager::add_task;
use crate::task::pid::{
    kernel_stack_demand, kernel_stack_vpn, pid_alloc, spec_kernel_stack_position, KernelStack,
};
use crate::task::processor::Processor;
use crate::task::task::{TaskControlBlock, TaskControlBlockInner, TaskStatus};
use crate::task::{
    brk_starved, change_program_brk, get_current_pid, get_current_task, memory_changed, yield_,
    yielded,
};
use crate::task::{exit, exited, ExitAction};
use crate::timer::{get_time_ms, ms_of};
use crate::trap::context::{REG_A0, REG_SP, SSTATUS_SPP};

verus! {

/// The identifier of the calling process.
pub fn sys_getpid(kernel: &mut Kernel, hart: usize) -> (r: i64)
    requires
        old(kernel).wf(),
        hart < MAX_CPU_NUM,
        old(kernel).processors@[hart as int].current.is_some(),
    ensures
        Some(r as usize) == old(kernel).processors@[hart as int].current,
        r == old(kernel).processors@[hart as int].current.unwrap() as i64,
        0 <= r < PID_LIMIT,
        final(kernel).wf(),
        old(kernel).same_but_harts(final(kernel)),
        final(kernel).processors@ == old(kernel).processors@.update(
            hart as int,
            Processor {
                intena: old(kernel).processors@[hart as int].interrupts,
                ..old(kernel).processors@[hart as int]
            },
        ),
{
    get_current_pid(kernel, hart)
}

/// Information on the calling process: its identifier.
pub fn sys_get_taskinfo(kernel: &mut Kernel, hart: usize) -> (r: i64)
    requires
        old(kernel).wf(),
        hart < MAX_CPU_NUM,
        old(kernel).processors@[hart as int].current.is_some(),
    ensures
        Some(r as usize) == old(kernel).processors@[hart as int].current,
        r == old(kernel).processors@[hart as int].current.unwrap() as i64,
        0 <= r < PID_LIMIT,
        final(kernel).wf(),
        old(kernel).same_but_harts(final(kernel)),
        final(kernel).processors@ == old(kernel).processors@.update(
            hart as int,
            Processor {
                intena: old(kernel).processors@[hart as int].interrupts,
                ..old(kernel).processors@[hart as int]
            },
        ),
{
    get_current_pid(kernel, hart)
}

/// The calling process gives up its hart; the call returns 0.
pub fn sys_yield(kernel: &mut Kernel, hart: usize) -> (r: i64)
    requires
        old(kernel).wf(),
        hart < MAX_CPU_NUM,
        old(kernel).processors@[hart as int].current.is_some(),
    ensures
        r == 0,
        final(kernel).wf(),
        yielded(old(kernel), final(kernel), hart as int),
{
    yield_(kernel, hart);
    0
}

/// The time in milliseconds when the timer counts `time` ticks; the caller
/// has read the count off the timer.
pub fn sys_get_time(time: u64) -> (r: i64)
    ensures
        r == ms_of(time) as i64,
        r == time / 12500,
{
    get_time_ms(time) as i64
}

/// What `sys_sbrk` does when it returns `code`: an allowed move returns
/// the break as it was and moves it as `brk_moved` says; one that is not
/// allowed returns -1 and changes neither the process nor the allocator.
pub open spec fn sbrk_done(old: &Kernel, new: &Kernel, hart: int, size: i32, code: i64) -> bool {
    let pid = old.processors@[hart].current.unwrap();
    let inner = old.procs()[pid].inner;
    &&& memory_changed(old, new, hart, pid)
    &&& if inner.brk_allowed(size, old.lazy_heap) {
        &&& code == inner.program_brk as i64
        &&& TaskControlBlockInner::brk_moved(&inner, &new.procs()[pid].inner, size, old.lazy_heap)
    } else {
        &&& code == -1
        &&& new.procs()[pid] == old.procs()[pid]
        &&& new.frame_allocator == old.frame_allocator
    }
}

/// Moves the end of the heap of the calling process by `size` bytes.
/// Returns the old end, or -1 when the move is not allowed.
pub fn sys_sbrk(kernel: &mut Kernel, hart: usize, size: i32) -> (r: Result<i64, KernelError>)
    requires
        old(kernel).wf(),
        hart < MAX_CPU_NUM,
        old(kernel).processors@[hart as int].current.is_some(),
    ensures
        r.is_err() <==> brk_starved(old(kernel), hart as int, size),
        r matches Err(e) ==> e == KernelError::OutOfFrames,
        r matches Ok(code) ==> {
            let pid = old(kernel).processors@[hart as int].current.unwrap();
            let inner = old(kernel).procs()[pid].inner;
            &&& final(kernel).wf()
            &&& sbrk_done(old(kernel), final(kernel), hart as int, size, code)
            &&& inner.brk_allowed(size, false) && !old(kernel).lazy_heap
                ==> final(kernel).frame_allocator.free_count() == old(
                kernel,
            ).frame_allocator.free_count() - inner.brk_demand(size, false) + inner.brk_release(
                size,
            )
        },
{
    match change_program_brk(kernel, hart, size) {
        Ok(Some(old_brk)) => Ok(old_brk as i64),
        Ok(None) => Ok(-1),
        Err(e) => Err(e),
    }
}

/// What `sys_fork` does to the kernel when it creates process `c`: the
/// child is a copy of the calling process, the parent, with an address
/// space of its own that holds the same bytes, and with 0 in its register
/// `a0`; it is ready, at the tail of the ready queue, and the last child of
/// the parent.
pub open spec fn forked(old: &Kernel, new: &Kernel, hart: int, c: usize) -> bool {
    let cpu = old.processors@[hart];
    let p = cpu.current.unwrap();
    let parent = old.procs()[p];
    let child = new.procs()[c];
    &&& new.layout == old.layout
    &&& new.entries == old.entries
    &&& new.lazy_heap == old.lazy_heap
    &&& new.apps == old.apps
    &&& new.processors@ == old.processors@.update(hart, Processor { intena: cpu.interrupts, ..cpu })
    &&& new.task_manager@ == old.task_manager@.push(c)
    &&& child.inner.heap_in_step() == parent.inner.heap_in_step()
    &&& old.pid_allocator.next() == Some(c)
    &&& !old.procs().contains_key(c)
    &&& new.procs().dom() == old.procs().dom().insert(c)
    &&& forall|q: usize|
        q != p && old.procs().contains_key(q) ==> #[trigger] new.procs()[q] == old.procs()[q]
    &&& new.procs()[p].pid == parent.pid
    &&& new.procs()[p].kernel_stack == parent.kernel_stack
    &&& new.procs()[p].inner.memory_set == parent.inner.memory_set
    &&& new.procs()[p].inner.children@ == parent.inner.children@.push(c)
    &&& parent.inner.same_but_memory(
        &(TaskControlBlockInner { children: parent.inner.children, ..new.procs()[p].inner }),
    )
    &&& new.procs()[p].inner.program_brk == parent.inner.program_brk
    &&& child.pid.0 == c
    &&& child.inner.task_status == TaskStatus::Ready
    &&& child.inner.task_cx.ra == old.entries.fork_ret
    &&& child.inner.task_cx.sp == spec_kernel_stack_position(c).1
    &&& child.inner.parent == Some(p)
    &&& child.inner.children@.len() == 0
    &&& child.inner.xcode == 0
    &&& child.inner.heap_bottom == parent.inner.heap_bottom
    &&& child.inner.program_brk == parent.inner.program_brk
    &&& child.inner.trap_cx.regs@ == parent.inner.trap_cx.regs@.update(REG_A0 as int, 0)
    &&& child.inner.trap_cx.sstatus == parent.inner.trap_cx.sstatus
    &&& child.inner.trap_cx.sepc == parent.inner.trap_cx.sepc
    &&& child.inner.trap_cx.kernel_satp == parent.inner.trap_cx.kernel_satp
    &&& child.inner.trap_cx.trap_handler == parent.inner.trap_cx.trap_handler
    &&& child.inner.trap_cx.kernel_sp == spec_kernel_stack_position(c).1
    &&& child.inner.memory_set.areas() == parent.inner.memory_set.areas()
    &&& forall|k: u64, v: u64|
        parent.inner.memory_set.areas().contains_key(k)
            && #[trigger] parent.inner.memory_set.areas()[k].contains(v)
            && parent.inner.memory_set.areas()[k].map_type() == MapType::Framed
            ==> child.inner.memory_set.page_bytes(v) == parent.inner.memory_set.page_bytes(v)
}

/// The frames that forking the process on hart `hart` takes: those of the
/// child's kernel stack and those of the copy of the address space.
pub open spec fn fork_demand(kernel: &Kernel, hart: int) -> nat {
    let p = kernel.processors@[hart].current.unwrap();
    kernel_stack_demand(kernel.kernel_space.lacks(), kernel.pid_allocator.next().unwrap())
        + kernel.procs()[p].inner.memory_set.copy_demand()
}

/// Forks the calling process. Returns the identifier of the child to the
/// caller; the child will find 0 in its place. Fails when no identifier
/// is left, and else exactly when the allocator has fewer frames than the
/// fork takes.
pub fn sys_fork(kernel: &mut Kernel, hart: usize) -> (r: Result<i64, KernelError>)
    requires
        old(kernel).wf(),
        hart < MAX_CPU_NUM,
        old(kernel).processors@[hart as int].current.is_some(),
    ensures
        old(kernel).pid_allocator.next().is_none() <==> r == Err::<i64, KernelError>(
            KernelError::OutOfPids,
        ),
        r == Err::<i64, KernelError>(KernelError::OutOfFrames) <==> old(
            kernel,
        ).pid_allocator.next().is_some() && old(kernel).frame_allocator.free_count() < fork_demand(
            old(kernel),
            hart as int,
        ),
        r matches Err(e) ==> e == KernelError::OutOfPids || e == KernelError::OutOfFrames,
        r == Err::<i64, KernelError>(KernelError::OutOfPids) ==> old(kernel).same_but_harts(
            final(kernel),
        ),
        r matches Ok(c) ==> {
            &&& final(kernel).wf()
            &&& 0 <= c < PID_LIMIT
            &&& forked(old(kernel), final(kernel), hart as int, c as usize)
            &&& final(kernel).frame_allocator.free_count() == old(
                kernel,
            ).frame_allocator.free_count() - fork_demand(old(kernel), hart as int)
        },
{
    let ghost k0 = *kernel;
    let parent_pid = get_current_task(kernel, hart);
    let ghost k1 = *kernel;
    let handle = match pid_alloc(&mut kernel.pid_allocator) {
        Some(handle) => handle,
        None => {
            return Err(KernelError::OutOfPids);
        },
    };
    let child_pid = handle.0;
    proof {
        assert(!k1.procs().contains_key(child_pid));
        assert(!k1.procs().dom().contains(child_pid));
    }
    let kernel_stack = match KernelStack::new(
        &handle,
        &mut kernel.kernel_space,
        &mut kernel.frame_allocator,
    ) {
        Ok(stack) => stack,
        Err(e) => {
            return Err(KernelError::from_mem(e));
        },
    };
    let ghost mid = kernel.frame_allocator;
    let mut parent = kernel.tasks.remove(&parent_pid).unwrap();
    let mut child = match parent.fork(
        &mut kernel.frame_allocator,
        handle,
        kernel_stack,
        &kernel.entries,
        kernel.layout.strampoline,
    ) {
        Ok(child) => child,
        Err(e) => {
            return Err(KernelError::from_mem(e));
        },
    };
    child.inner.trap_cx.set_reg(REG_A0, 0);
    kernel.tasks.insert(parent_pid, parent);
    kernel.tasks.insert(child_pid, child);
    add_task(&mut kernel.task_manager, child_pid);
    proof {
        assert(kernel.procs().dom() =~= k1.procs().dom().insert(child_pid));
        Kernel::lemma_spawned(&k1, kernel, &mid, Some(parent_pid), child_pid);
    }
    Ok(child_pid as i64)
}


/// Whether a call of `waitpid` for `pid` is content with child `c`: -1
/// stands for any child.
pub open spec fn wait_matches(pid: i64, c: usize) -> bool {
    pid == -1 || (pid >= 0 && pid == c)
}

/// Index of the first of `children`, below `upto`, that is a zombie and
/// that a call of `waitpid` for `pid` is content with.
pub open spec fn first_zombie(
    tasks: Map<usize, TaskControlBlock>,
    children: Seq<usize>,
    pid: i64,
    upto: int,
) -> Option<int>
    decreases upto,
{
    if upto <= 0 {
        None
    } else {
        match first_zombie(tasks, children, pid, upto - 1) {
            Some(i) => Some(i),
            None => if wait_matches(pid, children[upto - 1])
                && tasks[children[upto - 1]].inner.task_status == TaskStatus::Zombie {
                Some(upto - 1)
            } else {
                None
            },
        }
    }
}

/// Whether a call of `waitpid` for `pid` is content with one of `children`.
pub open spec fn any_match(children: Seq<usize>, pid: i64) -> bool {
    exists|i: int| 0 <= i < children.len() && wait_matches(pid, #[trigger] children[i])
}

/// What `sys_waitpid` does to the kernel when it collects child `c`, the
/// child at index `i` of the caller: the child is gone, its identifier and
/// its kernel stack are free, the caller no longer lists it, and the exit
/// code of the child stands at `xcode_ptr` in the caller's memory if the
/// caller can reach four bytes there.
pub open spec fn reaped(old: &Kernel, new: &Kernel, hart: int, c: usize, i: int, xcode_ptr: u64) -> bool {
    let cpu = old.processors@[hart];
    let p = cpu.current.unwrap();
    let caller = old.procs()[p];
    let after = new.procs()[p];
    let reachable = xcode_ptr + 3 <= u64::MAX && forall|k: int|
        0 <= k < 4 ==> (#[trigger] mem_byte(caller.inner.memory_set.table(), xcode_ptr + k)).is_some();
    &&& new.layout == old.layout
    &&& new.entries == old.entries
    &&& new.lazy_heap == old.lazy_heap
    &&& new.apps == old.apps
    &&& new.task_manager@ == old.task_manager@
    &&& new.processors@ == old.processors@.update(hart, Processor { intena: cpu.interrupts, ..cpu })
    &&& new.procs().dom() == old.procs().dom().remove(c)
    &&& forall|q: usize|
        q != p && q != c && old.procs().contains_key(q) ==> #[trigger] new.procs()[q]
            == old.procs()[q]
    &&& !new.pid_allocator.is_allocated(c)
    &&& forall|q: usize|
        q != c ==> new.pid_allocator.is_allocated(q) == old.pid_allocator.is_allocated(q)
    &&& new.kernel_space.areas() == old.kernel_space.areas().remove(kernel_stack_vpn(c))
    &&& after.pid == caller.pid
    &&& after.kernel_stack == caller.kernel_stack
    &&& after.inner.children@ == caller.inner.children@.remove(i)
    &&& caller.inner.same_but_memory(
        &(TaskControlBlockInner { children: caller.inner.children, ..after.inner }),
    )
    &&& after.inner.program_brk == caller.inner.program_brk
    &&& after.inner.memory_set@ == caller.inner.memory_set@
    &&& after.inner.memory_set.areas() == caller.inner.memory_set.areas()
    &&& reachable ==> forall|k: int|
        0 <= k < 4 ==> #[trigger] mem_byte(after.inner.memory_set.table(), xcode_ptr + k) == Some(
            le_bytes(old.procs()[c].inner.xcode)[k],
        )
    &&& !reachable ==> after.inner.memory_set.frames() == caller.inner.memory_set.frames()
}

/// A zombie child that its parent has collected leaves the kernel well formed.
proof fn lemma_reaped(k0: &Kernel, k1: &Kernel, p: usize, c: usize, i: int)
    requires
        k0.wf(),
        k0.procs().contains_key(p),
        k0.procs()[p].inner.task_status != TaskStatus::Zombie,
        0 <= i < k0.procs()[p].inner.children@.len(),
        k0.procs()[p].inner.children@[i] == c,
        k0.procs()[c].inner.task_status == TaskStatus::Zombie,
        k1.layout == k0.layout,
        k1.entries == k0.entries,
        k1.lazy_heap == k0.lazy_heap,
        k1.apps == k0.apps,
        k1.task_manager@ == k0.task_manager@,
        k1.processors@ == k0.processors@,
        k1.procs().dom() == k0.procs().dom().remove(c),
        forall|q: usize|
            q != p && q != c && k0.procs().contains_key(q) ==> #[trigger] k1.procs()[q]
                == k0.procs()[q],
        k1.pid_allocator.wf(),
        !k1.pid_allocator.is_allocated(c),
        forall|q: usize|
            q != c ==> k1.pid_allocator.is_allocated(q) == k0.pid_allocator.is_allocated(q),
        // the kernel stack
        k1.frame_allocator.wf(),
        k1.kernel_space.inv(),
        k1.kernel_space.accounted(&k1.frame_allocator),
        foreign(k1.kernel_space.table(), &k1.frame_allocator) == foreign(
            k0.kernel_space.table(),
            &k0.frame_allocator,
        ),
        k1.kernel_space.areas() == k0.kernel_space.areas().remove(kernel_stack_vpn(c)),
        unmapped_range(
            k0.kernel_space.table(),
            k1.kernel_space.table(),
            k0.kernel_space.areas()[kernel_stack_vpn(c)].map_type(),
            k0.kernel_space.areas()[kernel_stack_vpn(c)].start(),
            k0.kernel_space.areas()[kernel_stack_vpn(c)].end(),
        ),
        // the parent
        k1.procs()[p].wf(),
        k1.procs()[p].pid == k0.procs()[p].pid,
        k1.procs()[p].inner.task_status == k0.procs()[p].inner.task_status,
        k1.procs()[p].inner.parent == k0.procs()[p].inner.parent,
        k1.procs()[p].inner.children@ == k0.procs()[p].inner.children@.remove(i),
        k1.procs()[p].inner.memory_set.owned() == k0.procs()[p].inner.memory_set.owned(),
    ensures
        k1.wf(),
{
    let t0 = k0.procs();
    let t1 = k1.procs();
    let kids0 = t0[p].inner.children@;
    let kids1 = t1[p].inner.children@;
    assert(t0.contains_key(t0[p].inner.children@[i]));
    assert(t0.contains_key(c));
    assert(t0[c].inner.parent == Some(p));
    assert(c != p);
    assert(c != crate::kernel::INITPROC_PID);
    assert(t0[c].wf());
    assert(t0[c].inner.children@.len() == 0);
    // frames
    let o0 = owned_map(t0);
    let o1 = owned_map(t1);
    let ks0 = k0.kernel_space.table().owned();
    let ks1 = k1.kernel_space.table().owned();
    let a0 = k0.frame_allocator.allocated();
    let a1 = k1.frame_allocator.allocated();
    assert(ks1.subset_of(a1)) by {
        assert forall|x: u64| ks1.contains(x) implies a1.contains(x) by {
            assert(k1.frame_allocator.is_allocated(x));
        }
    }
    lemma_frames_kernel_changed(o0, ks0, a0, ks1, a1);
    assert(o0.contains_key(c) && o0[c] == Set::<u64>::empty());
    lemma_frames_task_removed(o0, ks1, a1, c);
    assert(o1 =~= o0.remove(c)) by {
        assert forall|q: usize| o1.contains_key(q) implies o1[q] == o0.remove(c)[q] by {
            assert(t0.contains_key(q));
            if q != p {
                assert(t1[q] == t0[q]);
            }
        }
    }
    assert(k1.kernel_space.has_trampoline()) by {
        let area = k0.kernel_space.areas()[kernel_stack_vpn(c)];
        assert(k0.kernel_space.areas().contains_key(kernel_stack_vpn(c)));
        assert(!area.contains(trampoline_vpn()));
        assert(k0.kernel_space@.contains_key(trampoline_vpn()));
        assert(k1.kernel_space.table()@.contains_key(trampoline_vpn())
            == k0.kernel_space.table()@.contains_key(trampoline_vpn()));
    }
    assert forall|x: usize| #[trigger] t1.contains_key(x) implies t1[x].wf() && t1[x].pid.0 == x && (
    t1[x].inner.task_status != TaskStatus::Zombie ==> t1[x].inner.memory_set.accounted(
        &k1.frame_allocator,
    )) by {
        assert(t0.contains_key(x));
        if x != p {
            assert(t1[x] == t0[x]);
        }
        assert forall|f: u64| #[trigger]
            t1[x].inner.memory_set.table().owned().contains(f) implies k1.frame_allocator.is_allocated(
            f,
        ) by {
            assert(o1.contains_key(x) && o1[x].contains(f));
            assert(a1.contains(f));
        }
    }
    assert forall|q: usize| k1.pid_allocator.is_allocated(q) <==> #[trigger] t1.contains_key(q) by {
        if q != c {
            assert(k0.pid_allocator.is_allocated(q) <==> t0.contains_key(q));
        }
    }
    // kernel stacks
    assert(stacks_inv(t1.dom(), &k1.kernel_space)) by {
        let area = k0.kernel_space.areas()[kernel_stack_vpn(c)];
        assert(t0.dom().contains(c));
        assert(k0.kernel_space.areas().contains_key(kernel_stack_vpn(c)));
        assert(area.start() == kernel_stack_vpn(c));
        assert(area.end() == kernel_stack_vpn(c) + 2);
        assert forall|pid: usize| pid < crate::config::PID_LIMIT implies if #[trigger] t1.dom().contains(
            pid,
        ) {
            &&& k1.kernel_space.areas().contains_key(kernel_stack_vpn(pid))
            &&& k1.kernel_space.areas()[kernel_stack_vpn(pid)].end() == kernel_stack_vpn(pid) + 2
        } else {
            &&& !k1.kernel_space@.contains_key(kernel_stack_vpn(pid))
            &&& !k1.kernel_space@.contains_key((kernel_stack_vpn(pid) + 1) as u64)
        } by {
            if pid == c {
                assert(!k1.kernel_space.table()@.contains_key(kernel_stack_vpn(c)));
                assert(!k1.kernel_space.table()@.contains_key((kernel_stack_vpn(c) + 1) as u64));
            } else {
                assert(t0.dom().contains(pid) == t1.dom().contains(pid));
                assert(kernel_stack_vpn(pid) != kernel_stack_vpn(c));
                let v = kernel_stack_vpn(pid);
                let w = (kernel_stack_vpn(pid) + 1) as u64;
                assert(!(area.start() <= v < area.end()));
                assert(!(area.start() <= w < area.end()));
                assert(k1.kernel_space.table()@.contains_key(v) == k0.kernel_space.table()@.contains_key(
                    v,
                ));
                assert(k1.kernel_space.table()@.contains_key(w) == k0.kernel_space.table()@.contains_key(
                    w,
                ));
                if t0.dom().contains(pid) {
                    assert(k0.kernel_space.areas().contains_key(kernel_stack_vpn(pid)));
                }
            }
        }
    }
    // families
    assert(family_inv(t1)) by {
        assert forall|x: usize| #[trigger] t1.contains_key(x) implies t1[x].inner.children@.no_duplicates() by {
            assert(t0.contains_key(x));
            if x == p {
                assert(kids0.no_duplicates());
                assert forall|a: int, b: int|
                    0 <= a < kids1.len() && 0 <= b < kids1.len() && a != b implies kids1[a]
                    != kids1[b] by {
                    let a0 = if a < i {
                        a
                    } else {
                        a + 1
                    };
                    let b0 = if b < i {
                        b
                    } else {
                        b + 1
                    };
                    assert(kids1[a] == kids0[a0] && kids1[b] == kids0[b0]);
                }
            } else {
                assert(t1[x] == t0[x]);
            }
        }
        assert forall|x: usize, j: int|
            t1.contains_key(x) && 0 <= j < t1[x].inner.children@.len() implies {
            let y = #[trigger] t1[x].inner.children@[j];
            &&& t1.contains_key(y)
            &&& t1[y].inner.parent == Some(x)
        } by {
            assert(t0.contains_key(x));
            if x == p {
                let j0 = if j < i {
                    j
                } else {
                    j + 1
                };
                assert(kids1[j] == kids0[j0]);
                let y = t0[p].inner.children@[j0];
                assert(t0.contains_key(y));
                assert(y != c);
                assert(y != p);
                assert(t1[y] == t0[y]);
            } else {
                assert(t1[x] == t0[x]);
                let y = t0[x].inner.children@[j];
                assert(t0.contains_key(y));
                assert(t0[y].inner.parent == Some(x));
                assert(y != c);
                if y != p {
                    assert(t1[y] == t0[y]);
                }
            }
        }
        assert forall|x: usize| #[trigger] t1.contains_key(x) implies (
        t1[x].inner.parent matches Some(q) ==> t1.contains_key(q) && q != x
            && t1[q].inner.children@.contains(x)) by {
            assert(t0.contains_key(x));
            if x != p {
                assert(t1[x] == t0[x]);
            }
            if let Some(q) = t0[x].inner.parent {
                assert(t0[q].inner.children@.contains(x));
                assert(q != c) by {
                    if q == c {
                        assert(t0[c].inner.children@.len() == 0);
                        let z = choose|z: int|
                            0 <= z < t0[q].inner.children@.len() && t0[q].inner.children@[z] == x;
                    }
                }
                let z = choose|z: int|
                    0 <= z < t0[q].inner.children@.len() && t0[q].inner.children@[z] == x;
                if q == p {
                    assert(z != i);
                    let z1 = if z < i {
                        z
                    } else {
                        z - 1
                    };
                    assert(kids1[z1] == x);
                } else {
                    assert(t1[q] == t0[q]);
                }
            }
        }
        assert forall|x: usize| #[trigger] t1.contains_key(x) implies {
            &&& t1.contains_key(crate::kernel::INITPROC_PID)
            &&& t1[crate::kernel::INITPROC_PID].inner.task_status != TaskStatus::Zombie
            &&& (x == crate::kernel::INITPROC_PID <==> t1[x].inner.parent.is_none())
        } by {
            assert(t0.contains_key(x));
            assert(t0.contains_key(crate::kernel::INITPROC_PID));
            if x != p {
                assert(t1[x] == t0[x]);
            }
            if crate::kernel::INITPROC_PID != p {
                assert(t1[crate::kernel::INITPROC_PID] == t0[crate::kernel::INITPROC_PID]);
            }
        }
    }
    // scheduling
    assert(sched_inv(t1, k1.task_manager@, k1.processors@)) by {
        let q = k0.task_manager@;
        let cpus = k0.processors@;
        assert forall|j: int| 0 <= j < q.len() implies t1.contains_key(#[trigger] q[j])
            && t1[q[j]].inner.task_status == TaskStatus::Ready by {
            assert(t0.contains_key(q[j]));
            assert(q[j] != c);
            if q[j] != p {
                assert(t1[q[j]] == t0[q[j]]);
            }
        }
        assert forall|h: int| 0 <= h < cpus.len() implies ((#[trigger] cpus[h]).current matches Some(
            x,
        ) ==> t1.contains_key(x) && t1[x].inner.task_status == TaskStatus::Running) by {
            if let Some(x) = cpus[h].current {
                assert(t0.contains_key(x));
                assert(x != c);
                if x != p {
                    assert(t1[x] == t0[x]);
                }
            }
        }
    }
}

/// Collects a child of the calling process that has exited. With `pid`
/// -1 any child will do, else only the child `pid`. Returns -1 when the
/// caller has no such child, -2 when it has but none has exited yet, and
/// else the identifier of the first such child that has, whose exit code
/// is then stored at `xcode_ptr` in the caller's memory if the caller can
/// reach four bytes there.
pub fn sys_waitpid(kernel: &mut Kernel, hart: usize, pid: i64, xcode_ptr: u64) -> (r: i64)
    requires
        old(kernel).wf(),
        hart < MAX_CPU_NUM,
        old(kernel).processors@[hart as int].current.is_some(),
    ensures
        final(kernel).wf(),
        ({
            let cpu = old(kernel).processors@[hart as int];
            let p = cpu.current.unwrap();
            let kids = old(kernel).procs()[p].inner.children@;
            match first_zombie(old(kernel).procs(), kids, pid, kids.len() as int) {
                Some(i) => r == kids[i] && reaped(
                    old(kernel),
                    final(kernel),
                    hart as int,
                    kids[i],
                    i,
                    xcode_ptr,
                ),
                None => {
                    &&& r == (if any_match(kids, pid) {
                        -2i64
                    } else {
                        -1i64
                    })
                    &&& old(kernel).same_but_harts(final(kernel))
                    &&& final(kernel).processors@ == old(kernel).processors@.update(
                        hart as int,
                        Processor { intena: cpu.interrupts, ..cpu },
                    )
                },
            }
        }),
{
    let ghost k0 = *kernel;
    let p = get_current_task(kernel, hart);
    let ghost k1 = *kernel;
    let ghost t0 = k1.procs();
    let ghost kids = t0[p].inner.children@;
    let task_ref = kernel.tasks.get(&p).unwrap();
    let n = task_ref.inner.children.len();
    let mut any = false;
    let mut j: usize = 0;
    while j < n
        invariant
            j <= n,
            n == kids.len(),
            kids == task_ref.inner.children@,
            any == exists|x: int| 0 <= x < j && wait_matches(pid, #[trigger] kids[x]),
        decreases n - j,
    {
        let c = task_ref.inner.children[j];
        if pid == -1 || (pid >= 0 && pid as u64 == c as u64) {
            any = true;
        }
        proof {
            let hit = wait_matches(pid, c);
            assert(hit == (pid == -1 || (pid >= 0 && pid as u64 == c as u64)));
            if any {
                if hit {
                    assert(wait_matches(pid, kids[j as int]));
                } else {
                    let x = choose|x: int| 0 <= x < j && wait_matches(pid, #[trigger] kids[x]);
                    assert(0 <= x < j + 1 && wait_matches(pid, kids[x]));
                }
            } else {
                assert forall|x: int| 0 <= x < j + 1 implies !wait_matches(pid, #[trigger] kids[x]) by {
                    if x < j {
                    }
                }
            }
        }
        j += 1;
    }
    let mut found: Option<usize> = None;
    let mut j: usize = 0;
    while j < n && found.is_none()
        invariant
            j <= n,
            n == kids.len(),
            kids == task_ref.inner.children@,
            kernel.procs() == t0,
            k1.wf(),
            t0 == k1.procs(),
            t0.contains_key(p),
            kids == t0[p].inner.children@,
            match found {
                Some(i) => first_zombie(t0, kids, pid, kids.len() as int) == Some(i as int) && i < n,
                None => first_zombie(t0, kids, pid, j as int).is_none(),
            },
        decreases n - j + (if found.is_none() {
            1int
        } else {
            0int
        }),
    {
        let c = task_ref.inner.children[j];
        proof {
            assert(t0.contains_key(t0[p].inner.children@[j as int]));
        }
        let child = kernel.tasks.get(&c).unwrap();
        if child.inner.is_zombie() && (pid == -1 || (pid >= 0 && pid as u64 == c as u64)) {
            found = Some(j);
            proof {
                lemma_first_zombie_stays(t0, kids, pid, j as int + 1, kids.len() as int);
            }
        } else {
            j += 1;
        }
    }
    proof {
        if !any {
            lemma_no_match_no_zombie(t0, kids, pid, kids.len() as int);
        }
    }
    if !any {
        return -1;
    }
    let i = match found {
        Some(i) => i,
        None => {
            return -2;
        },
    };
    let mut task = kernel.tasks.remove(&p).unwrap();
    let c = task.inner.children.remove(i);
    proof {
        assert(t0.contains_key(t0[p].inner.children@[i as int]));
        lemma_first_zombie_is_zombie(t0, kids, pid, kids.len() as int);
        assert(c != p);
    }
    let child = kernel.tasks.remove(&c).unwrap();
    let found_pid = child.get_pid();
    let xcode = child.inner.xcode;
    let _written = translated_copyout(&mut task.inner.memory_set, xcode_ptr, xcode);
    let TaskControlBlock { pid: handle, kernel_stack, inner: _ } = child;
    let ghost ks0 = kernel.kernel_space;
    kernel_stack.release(&mut kernel.kernel_space, &mut kernel.frame_allocator);
    proof {
        assert(k1.pid_allocator.is_allocated(c));
    }
    kernel.pid_allocator.dealloc(handle.0);
    kernel.tasks.insert(p, task);
    proof {
        assert(kernel.procs().dom() =~= t0.dom().remove(c));
        assert(t0.dom().contains(c));
        assert(ks0.areas().contains_key(kernel_stack_vpn(c)));
        lemma_reaped(&k1, kernel, p, c, i as int);
    }
    found_pid as i64
}

proof fn lemma_first_zombie_stays(
    tasks: Map<usize, TaskControlBlock>,
    children: Seq<usize>,
    pid: i64,
    found: int,
    upto: int,
)
    requires
        found <= upto,
        first_zombie(tasks, children, pid, found).is_some(),
    ensures
        first_zombie(tasks, children, pid, upto) == first_zombie(tasks, children, pid, found),
    decreases upto - found,
{
    if found < upto {
        lemma_first_zombie_stays(tasks, children, pid, found, upto - 1);
    }
}

proof fn lemma_first_zombie_is_zombie(
    tasks: Map<usize, TaskControlBlock>,
    children: Seq<usize>,
    pid: i64,
    upto: int,
)
    requires
        upto <= children.len(),
    ensures
        first_zombie(tasks, children, pid, upto) matches Some(i) ==> 0 <= i < upto && wait_matches(
            pid,
            children[i],
        ) && tasks[children[i]].inner.task_status == TaskStatus::Zombie,
    decreases upto,
{
    if upto > 0 {
        lemma_first_zombie_is_zombie(tasks, children, pid, upto - 1);
    }
}

proof fn lemma_no_match_no_zombie(
    tasks: Map<usize, TaskControlBlock>,
    children: Seq<usize>,
    pid: i64,
    upto: int,
)
    requires
        upto <= children.len(),
        !any_match(children, pid),
    ensures
        first_zombie(tasks, children, pid, upto).is_none(),
    decreases upto,
{
    if upto > 0 {
        lemma_no_match_no_zombie(tasks, children, pid, upto - 1);
        assert(!wait_matches(pid, children[upto - 1]));
    }
}


/// The file of the program that a call of `exec` with the name at `path`
/// names, if the calling process `p` can reach the name, a built-in program
/// has it, and that program can be loaded.
pub open spec fn exec_target(kernel: &Kernel, p: usize, path: u64) -> Option<Seq<u8>> {
    match user_str(kernel.procs()[p].inner.memory_set.table(), path as int) {
        Some(name) => match first_named(kernel.apps.names(), name, kernel.apps.names().len() as int) {
            Some(i) => {
                let file = kernel.apps.files()[i];
                match elf_image_of(file) {
                    Some(image) => if image_ok(image, file.len() as int) && layout_ok(
                        full_plan(image),
                    ) {
                        Some(file)
                    } else {
                        None
                    },
                    None => None,
                }
            },
            None => None,
        },
        None => None,
    }
}

/// What `sys_exec` does to the kernel when it loads the program with file
/// `file` into process `p`: the process has the address space of that
/// program and a trap context that starts it, with the status register as
/// `sstatus` and the previous privilege set to user; all else is as before.
pub open spec fn executed(old: &Kernel, new: &Kernel, hart: int, file: Seq<u8>, sstatus: u64) -> bool {
    let cpu = old.processors@[hart];
    let p = cpu.current.unwrap();
    let before = old.procs()[p];
    let after = new.procs()[p];
    let image = elf_image_of(file).unwrap();
    &&& memory_changed(old, new, hart, p)
    &&& is_image_of(&after.inner.memory_set, image, file, old.layout.strampoline)
    &&& after.inner.task_status == before.inner.task_status
    &&& after.inner.task_cx == before.inner.task_cx
    &&& after.inner.heap_bottom == before.inner.heap_bottom
    &&& after.inner.program_brk == before.inner.program_brk
    &&& after.inner.parent == before.inner.parent
    &&& after.inner.children == before.inner.children
    &&& after.inner.xcode == before.inner.xcode
    &&& after.inner.trap_cx.sepc == image.entry_point
    &&& after.inner.trap_cx.regs@ == Seq::new(32, |i: int| 0u64).update(
        REG_SP as int,
        crate::config::TRAP_CONTEXT,
    )
    &&& after.inner.trap_cx.sstatus == sstatus & !SSTATUS_SPP
    &&& after.inner.trap_cx.kernel_satp == 0x8000_0000_0000_0000
        + old.kernel_space.table().root()
    &&& after.inner.trap_cx.kernel_sp == spec_kernel_stack_position(p).1
    &&& after.inner.trap_cx.trap_handler == old.entries.trap_handler
}

/// Whether the process on hart `hart` names at `path` a program that can
/// be loaded, but the allocator has fewer frames than its address space
/// takes.
pub open spec fn exec_starved(kernel: &Kernel, hart: int, path: u64) -> bool {
    exec_target(kernel, kernel.processors@[hart].current.unwrap(), path) matches Some(file)
        && kernel.frame_allocator.free_count() < image_demand(elf_image_of(file).unwrap())
}

/// Replaces the program of the calling process by the built-in program
/// whose name stands at `path` in the caller's memory. Returns 0 when the
/// program was loaded, and -1, with nothing changed, when the name cannot
/// be read, no program has it, or the program cannot be loaded.
pub fn sys_exec(kernel: &mut Kernel, hart: usize, path: u64, sstatus: u64) -> (r: Result<
    i64,
    KernelError,
>)
    requires
        old(kernel).wf(),
        hart < MAX_CPU_NUM,
        old(kernel).processors@[hart as int].current.is_some(),
    ensures
        r.is_err() <==> exec_starved(old(kernel), hart as int, path),
        r matches Err(e) ==> e == KernelError::OutOfFrames,
        r matches Ok(code) ==> {
            let cpu = old(kernel).processors@[hart as int];
            let p = cpu.current.unwrap();
            &&& final(kernel).wf()
            &&& match exec_target(old(kernel), p, path) {
                Some(file) => code == 0 && executed(
                    old(kernel),
                    final(kernel),
                    hart as int,
                    file,
                    sstatus,
                ),
                None => {
                    &&& code == -1
                    &&& old(kernel).same_but_harts(final(kernel))
                    &&& final(kernel).processors@ == old(kernel).processors@.update(
                        hart as int,
                        Processor { intena: cpu.interrupts, ..cpu },
                    )
                },
            }
        },
{
    let ghost k0 = *kernel;
    let p = get_current_task(kernel, hart);
    let ghost k1 = *kernel;
    let name = {
        let task = kernel.tasks.get(&p).unwrap();
        match translate_str(task.inner.memory_set.page_table(), path) {
            Some(name) => name,
            None => {
                return Ok(-1);
            },
        }
    };
    let data = match kernel.apps.get_app_data_by_name(name.as_slice()) {
        Some(data) => data,
        None => {
            return Ok(-1);
        },
    };
    let mut task = kernel.tasks.remove(&p).unwrap();
    let token = kernel.kernel_space.token();
    match task.exec(
        &mut kernel.frame_allocator,
        data.as_slice(),
        token,
        &kernel.entries,
        sstatus,
        kernel.layout.strampoline,
    ) {
        Ok(()) => {},
        Err(LoadError::OutOfFrames) => {
            return Err(KernelError::OutOfFrames);
        },
        Err(_) => {
            kernel.tasks.insert(p, task);
            proof {
                assert(kernel.procs() =~= k1.procs());
            }
            return Ok(-1);
        },
    }
    kernel.tasks.insert(p, task);
    proof {
        assert(kernel.procs().dom() =~= k1.procs().dom());
        Kernel::lemma_task_updated(&k1, kernel, p);
    }
    Ok(0)
}

/// Ends the calling process with exit code `xcode`; see [`exit`].
pub fn sys_exit(kernel: &mut Kernel, hart: usize, xcode: i32) -> (r: ExitAction)
    requires
        old(kernel).wf(),
        hart < MAX_CPU_NUM,
        old(kernel).processors@[hart as int].current.is_some(),
    ensures
        final(kernel).wf(),
        old(kernel).processors@[hart as int].current == Some(crate::kernel::INITPROC_PID) ==> r
            == ExitAction::Shutdown && old(kernel).same_but_harts(final(kernel)) && final(kernel).processors@ == old(kernel).processors@.update(
            hart as int,
            Processor {
                intena: old(kernel).processors@[hart as int].interrupts,
                ..old(kernel).processors@[hart as int]
            },
        ),
        old(kernel).processors@[hart as int].current != Some(crate::kernel::INITPROC_PID) ==> r
            == ExitAction::Switch && exited(old(kernel), final(kernel), hart as int, xcode),
{
    exit(kernel, hart, xcode)
}


/// The child that a call of `waitpid` collects is not the caller.
pub proof fn lemma_reaped_child(
    tasks: Map<usize, TaskControlBlock>,
    children: Seq<usize>,
    pid: i64,
    p: usize,
)
    requires
        family_inv(tasks),
        tasks.contains_key(p),
        children == tasks[p].inner.children@,
    ensures
        first_zombie(tasks, children, pid, children.len() as int) matches Some(i) ==> 0 <= i
            < children.len() && children[i] != p,
{
    lemma_first_zombie_is_zombie(tasks, children, pid, children.len() as int);
    if let Some(i) = first_zombie(tasks, children, pid, children.len() as int) {
        assert(tasks.contains_key(tasks[p].inner.children@[i]));
    }
}


/// A child that was collected is collected once: it is no process any more
/// and no child of the caller, so that no later call of `waitpid` by the
/// caller, with no fork in between, finds it.
pub proof fn lemma_reaped_once(
    old: &Kernel,
    new: &Kernel,
    hart: int,
    c: usize,
    i: int,
    xcode_ptr: u64,
    pid: i64,
)
    requires
        old.wf(),
        0 <= hart < old.processors@.len(),
        old.processors@[hart].current.is_some(),
        0 <= i < old.procs()[old.processors@[hart].current.unwrap()].inner.children@.len(),
        old.procs()[old.processors@[hart].current.unwrap()].inner.children@[i] == c,
        reaped(old, new, hart, c, i, xcode_ptr),
    ensures
        !new.procs().contains_key(c),
        ({
            let p = old.processors@[hart].current.unwrap();
            let kids = new.procs()[p].inner.children@;
            &&& !kids.contains(c)
            &&& first_zombie(new.procs(), kids, pid, kids.len() as int) matches Some(j) ==> kids[j]
                != c
        }),
{
    let p = old.processors@[hart].current.unwrap();
    let kids0 = old.procs()[p].inner.children@;
    let kids = new.procs()[p].inner.children@;
    assert(old.procs().contains_key(p));
    assert(kids0.no_duplicates());
    assert(!kids.contains(c)) by {
        if kids.contains(c) {
            let j = choose|j: int| 0 <= j < kids.len() && kids[j] == c;
            let j0 = if j < i {
                j
            } else {
                j + 1
            };
            assert(kids0[j0] == c);
        }
    }
    lemma_first_zombie_is_zombie(new.procs(), kids, pid, kids.len() as int);
    if let Some(j) = first_zombie(new.procs(), kids, pid, kids.len() as int) {
        assert(kids.contains(kids[j]));
    }
}

/// In a kernel that maps the pages of the heap at once, for a calling
/// process whose heap is in step: a call of `sys_sbrk` with 0 is allowed
/// and so returns the break.
pub proof fn lemma_sbrk_zero(kernel: &Kernel, hart: int)
    requires
        kernel.wf(),
        !kernel.lazy_heap,
        0 <= hart < MAX_CPU_NUM,
        kernel.processors@[hart].current.is_some(),
        kernel.procs()[kernel.processors@[hart].current.unwrap()].inner.heap_in_step(),
    ensures
        kernel.procs()[kernel.processors@[hart].current.unwrap()].inner.brk_allowed(0, false),
        !brk_starved(kernel, hart, 0),
{
    let p = kernel.processors@[hart].current.unwrap();
    assert(kernel.procs().contains_key(p));
    assert(kernel.procs()[p].inner.task_status == TaskStatus::Running);
    kernel.procs()[p].inner.lemma_shrink_allowed(0);
    crate::mm::demand::lemma_frames_needed_bound(
        kernel.procs()[p].inner.memory_set.lacks(),
        true,
        kernel.procs()[p].inner.memory_set.areas()[kernel.procs()[p].inner.heap_key()].end(),
        kernel.procs()[p].inner.memory_set.areas()[kernel.procs()[p].inner.heap_key()].end(),
    );
}

/// In a kernel that maps the pages of the heap at once, for a calling
/// process whose heap is in step: after `sys_sbrk` has moved the break up
/// by `size` bytes, a call with `-size` is allowed and returns the break
/// that the first call made; it puts the break back where it was, maps the
/// same pages as before to the same frames with the same bytes, and
/// leaves the heap in step. `k1` is the kernel after the first call, `k2`
/// after the second.
pub proof fn lemma_sbrk_round_trip(
    k0: &Kernel,
    k1: &Kernel,
    k2: &Kernel,
    hart: int,
    size: i32,
    first: i64,
    second: i64,
)
    requires
        k0.wf(),
        k1.wf(),
        !k0.lazy_heap,
        0 <= hart < MAX_CPU_NUM,
        k0.processors@[hart].current.is_some(),
        size >= 0,
        k0.procs()[k0.processors@[hart].current.unwrap()].inner.heap_in_step(),
        k0.procs()[k0.processors@[hart].current.unwrap()].inner.brk_allowed(size, false),
        sbrk_done(k0, k1, hart, size, first),
        sbrk_done(k1, k2, hart, (-size) as i32, second),
    ensures
        ({
            let p = k0.processors@[hart].current.unwrap();
            let s0 = k0.procs()[p].inner;
            let s2 = k2.procs()[p].inner;
            &&& first == s0.program_brk as i64
            &&& second == (s0.program_brk + size) as i64
            &&& s2.program_brk == s0.program_brk
            &&& s2.heap_bottom == s0.heap_bottom
            &&& s2.memory_set@ == s0.memory_set@
            &&& s2.memory_set.areas() == s0.memory_set.areas()
            &&& s2.memory_set.frames() == s0.memory_set.frames()
            &&& s2.heap_in_step()
        }),
{
    let p = k0.processors@[hart].current.unwrap();
    let s0 = k0.procs()[p].inner;
    let s1 = k1.procs()[p].inner;
    let s2 = k2.procs()[p].inner;
    assert(k0.procs().contains_key(p));
    assert(s0.task_status == TaskStatus::Running);
    assert(k1.processors@[hart].current == Some(p));
    assert(k1.procs().contains_key(p));
    assert(k1.lazy_heap == k0.lazy_heap);
    TaskControlBlockInner::lemma_brk_keeps_step(&s0, &s1, size);
    s1.lemma_shrink_allowed((-size) as i32);
    TaskControlBlockInner::lemma_brk_round_trip(&s0, &s1, &s2, size);
    TaskControlBlockInner::lemma_brk_keeps_step(&s1, &s2, (-size) as i32);
}

/// In a kernel that maps the pages of the heap at once, for a calling
/// process whose heap is in step: `sys_sbrk` with an allowed `size` that
/// is not negative returns the break as it was, and a call with 0 after
/// it returns the break that it made, `size` bytes higher. `k1` is the
/// kernel after the first call, `k2` after the second.
pub proof fn lemma_sbrk_reports_growth(
    k0: &Kernel,
    k1: &Kernel,
    k2: &Kernel,
    hart: int,
    size: i32,
    first: i64,
    second: i64,
)
    requires
        k0.wf(),
        k1.wf(),
        !k0.lazy_heap,
        0 <= hart < MAX_CPU_NUM,
        k0.processors@[hart].current.is_some(),
        size >= 0,
        k0.procs()[k0.processors@[hart].current.unwrap()].inner.heap_in_step(),
        k0.procs()[k0.processors@[hart].current.unwrap()].inner.brk_allowed(size, false),
        sbrk_done(k0, k1, hart, size, first),
        sbrk_done(k1, k2, hart, 0, second),
    ensures
        ({
            let p = k0.processors@[hart].current.unwrap();
            let s0 = k0.procs()[p].inner;
            &&& first == s0.program_brk as i64
            &&& second == (s0.program_brk + size) as i64
            &&& k1.procs()[p].inner.program_brk == s0.program_brk + size
            &&& k2.procs()[p].inner.program_brk == s0.program_brk + size
            &&& k2.procs()[p].inner.heap_bottom == s0.heap_bottom
        }),
{
    let p = k0.processors@[hart].current.unwrap();
    let s0 = k0.procs()[p].inner;
    let s1 = k1.procs()[p].inner;
    assert(k0.procs().contains_key(p));
    assert(s0.task_status == TaskStatus::Running);
    assert(k1.processors@[hart].current == Some(p));
    assert(k1.procs().contains_key(p));
    TaskControlBlockInner::lemma_brk_keeps_step(&s0, &s1, size);
    s1.lemma_shrink_allowed(0);
}

/// A fork followed by an exec in the child, with nothing but scheduling in
/// between, leaks no frame and leaves the parent's address space alone:
/// the parent has the address space it had before the fork, its frames are
/// still handed out, and every frame that is handed out after the exec has
/// an owner.
pub proof fn lemma_fork_exec_keeps_frames(
    k0: &Kernel,
    k1: &Kernel,
    k2: &Kernel,
    k3: &Kernel,
    hart: int,
    child_hart: int,
    c: usize,
    file: Seq<u8>,
    sstatus: u64,
)
    requires
        k0.wf(),
        0 <= hart < k0.processors@.len(),
        k0.processors@[hart].current.is_some(),
        forked(k0, k1, hart, c),
        // the child gets a hart
        k2.wf(),
        0 <= child_hart < k2.processors@.len(),
        k2.processors@[child_hart].current == Some(c),
        k2.procs().contains_key(k0.processors@[hart].current.unwrap()),
        k2.procs()[k0.processors@[hart].current.unwrap()].inner.memory_set
            == k1.procs()[k0.processors@[hart].current.unwrap()].inner.memory_set,
        // and loads a program
        executed(k2, k3, child_hart, file, sstatus),
        k3.wf(),
    ensures
        ({
            let p = k0.processors@[hart].current.unwrap();
            &&& k3.procs().contains_key(p)
            &&& k3.procs()[p].inner.memory_set == k0.procs()[p].inner.memory_set
            &&& forall|f: u64|
                k0.procs()[p].inner.memory_set.owned().contains(f) ==> #[trigger] k3.frame_allocator.is_allocated(
                    f,
                )
            &&& forall|f: u64| #[trigger]
                k3.frame_allocator.is_allocated(f) ==> k3.kernel_space.owned().contains(f)
                    || crate::kernel::some_owner(owned_map(k3.procs()), f)
        }),
{
    let p = k0.processors@[hart].current.unwrap();
    assert(k0.procs().contains_key(p));
    assert(p != c);
    assert(k3.procs()[p] == k2.procs()[p]);
    assert forall|f: u64|
        k0.procs()[p].inner.memory_set.owned().contains(f) implies #[trigger] k3.frame_allocator.is_allocated(
        f,
    ) by {
        k3.lemma_owned_is_allocated(p, f);
    }
    assert forall|f: u64| #[trigger] k3.frame_allocator.is_allocated(f) implies k3.kernel_space.owned().contains(
        f,
    ) || crate::kernel::some_owner(owned_map(k3.procs()), f) by {
        assert(k3.frame_allocator.allocated().contains(f));
    }
}

} // verus!
