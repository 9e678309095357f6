//! Processes and their scheduling.

pub mod context;
pub mod manager;
pub mod pid;
pub mod processor;
pub mod task;

use vstd::prelude::*;
use crate::common::{pop_off, push_off};
use crate::config::MAX_CPU_NUM;
use crate::error::KernelError;
use crate::kernel::{
    family_inv, frames_inv, lemma_frames_task_changed, on_hart, owned_map, sched_inv, stacks_inv,
    Kernel,
    INITPROC_PID,
};
use crate::loader::first_named;
use crate::mm::address::VirtAddr;
use crate::mm::elf::elf_image_of;
use crate::mm::memory_set::{foreign, trap_context_vpn, MemorySet};
use crate::mm::user_space::{
    full_plan, heap_bottom_of, image_demand, image_ok, is_image_of, layout_ok, load_plan, max_end,
};
use crate::task::manager::add_task;
use crate::task::processor::{
    current_cpu, current_task, schedule, scheduled, take_current_task, Processor,
};
use crate::task::pid::kernel_stack_demand;
use crate::task::task::{TaskControlBlock, TaskControlBlockInner, TaskStatus};
use crate::trap::context::TrapContext;

verus! {

/// The name of the program that the first process runs.
pub open spec fn initproc_name() -> Seq<u8> {
    seq![0x69u8, 0x6e, 0x69, 0x74, 0x70, 0x72, 0x6f, 0x63]
}

/// The error that creating the first process ends with, if any: no
/// program is called `initproc`, its file cannot be loaded, or the
/// allocator has fewer frames than the kernel stack and the address space
/// of the process take.
pub open spec fn initproc_failure(kernel: &Kernel) -> Option<KernelError> {
    match first_named(kernel.apps.names(), initproc_name(), kernel.apps.names().len() as int) {
        None => Some(KernelError::NoSuchApp),
        Some(i) => {
            let file = kernel.apps.files()[i];
            match elf_image_of(file) {
                None => Some(KernelError::BadElf),
                Some(image) => if !image_ok(image, file.len() as int) {
                    Some(KernelError::BadElf)
                } else if !layout_ok(full_plan(image)) {
                    Some(KernelError::Overlap)
                } else if kernel.frame_allocator.free_count() < kernel_stack_demand(
                    kernel.kernel_space.lacks(),
                    INITPROC_PID,
                ) + image_demand(image) {
                    Some(KernelError::OutOfFrames)
                } else {
                    None
                },
            }
        },
    }
}

/// What creating the first process does: it runs the program called
/// `initproc`, is ready, alone on the ready queue, and has neither parent
/// nor children.
pub open spec fn initproc_added(old: &Kernel, new: &Kernel) -> bool {
    let i = first_named(
        old.apps.names(),
        initproc_name(),
        old.apps.names().len() as int,
    ).unwrap();
    let file = old.apps.files()[i];
    let image = elf_image_of(file).unwrap();
    let task = new.procs()[INITPROC_PID];
    &&& new.procs().dom() == set![INITPROC_PID]
    &&& new.task_manager@ == seq![INITPROC_PID]
    &&& new.processors@ == old.processors@
    &&& is_image_of(&task.inner.memory_set, image, file, old.layout.strampoline)
    &&& task.inner.heap_bottom == heap_bottom_of(image)
    &&& task.inner.program_brk == heap_bottom_of(image)
    &&& task.inner.trap_cx.sepc == image.entry_point
    &&& task.inner.task_status == TaskStatus::Ready
    &&& task.inner.parent.is_none()
    &&& task.inner.children@.len() == 0
    &&& max_end(load_plan(image.segments)) != trap_context_vpn() ==> task.inner.heap_in_step()
}

/// Creates the first process from the built-in program called `initproc`
/// and puts it on the ready queue.
pub fn add_initproc(kernel: &mut Kernel, sstatus: u64) -> (r: Result<(), KernelError>)
    requires
        old(kernel).wf(),
        old(kernel).procs() == Map::<usize, TaskControlBlock>::empty(),
        old(kernel).pid_allocator.next() == Some(INITPROC_PID),
    ensures
        r == (match initproc_failure(old(kernel)) {
            Some(e) => Err::<(), KernelError>(e),
            None => Ok::<(), KernelError>(()),
        }),
        r matches Err(e) ==> e == KernelError::OutOfFrames || *final(kernel) == *old(kernel),
        r.is_ok() ==> final(kernel).wf() && initproc_added(old(kernel), final(kernel)),
{
    let ghost k0 = *kernel;
    let name: [u8; 8] = [0x69, 0x6e, 0x69, 0x74, 0x70, 0x72, 0x6f, 0x63];
    assert(name@ =~= initproc_name());
    let data = match kernel.apps.get_app_data_by_name(name.as_slice()) {
        Some(data) => data,
        None => {
            return Err(KernelError::NoSuchApp);
        },
    };
    proof {
        assert(!k0.procs().dom().contains(INITPROC_PID));
        if k0.task_manager@.len() > 0 {
            assert(k0.procs().contains_key(k0.task_manager@[0]));
        }
    }
    let (task, Ghost(mid)) = match TaskControlBlock::new_for_initproc(
        &mut kernel.pid_allocator,
        &mut kernel.kernel_space,
        &mut kernel.frame_allocator,
        data.as_slice(),
        &kernel.entries,
        sstatus,
        kernel.layout.strampoline,
    ) {
        Ok(made) => made,
        Err(e) => {
            return Err(e);
        },
    };
    let pid = task.get_pid();
    kernel.tasks.insert(pid, task);
    add_task(&mut kernel.task_manager, pid);
    proof {
        assert(kernel.procs().dom() =~= k0.procs().dom().insert(INITPROC_PID));
        assert(kernel.procs().dom() =~= set![INITPROC_PID]);
        assert(kernel.task_manager@ =~= seq![INITPROC_PID]);
        Kernel::lemma_spawned(&k0, kernel, &mid, None, INITPROC_PID);
        let image = elf_image_of(data@).unwrap();
        if max_end(load_plan(image.segments)) != trap_context_vpn() {
            kernel.procs()[INITPROC_PID].inner.lemma_loaded_heap_in_step(
                image,
                data@,
                k0.layout.strampoline,
            );
        }
    }
    Ok(())
}

/// Sets the processes up: creates the first process and puts it on the
/// ready queue.
pub fn init(kernel: &mut Kernel, sstatus: u64) -> (r: Result<(), KernelError>)
    requires
        old(kernel).wf(),
        old(kernel).procs() == Map::<usize, TaskControlBlock>::empty(),
        old(kernel).pid_allocator.next() == Some(INITPROC_PID),
    ensures
        r == (match initproc_failure(old(kernel)) {
            Some(e) => Err::<(), KernelError>(e),
            None => Ok::<(), KernelError>(()),
        }),
        r matches Err(e) ==> e == KernelError::OutOfFrames || *final(kernel) == *old(kernel),
        r.is_ok() ==> final(kernel).wf() && initproc_added(old(kernel), final(kernel)),
{
    add_initproc(kernel, sstatus)
}


/// The process that hart `hart` runs, which must run one.
pub fn get_current_task(kernel: &mut Kernel, hart: usize) -> (r: usize)
    requires
        old(kernel).wf(),
        hart < MAX_CPU_NUM,
        old(kernel).processors@[hart as int].current.is_some(),
    ensures
        Some(r) == old(kernel).processors@[hart as int].current,
        final(kernel).wf(),
        final(kernel).procs().contains_key(r),
        final(kernel).procs()[r].inner.task_status == TaskStatus::Running,
        old(kernel).same_but_harts(final(kernel)),
        final(kernel).processors@ == old(kernel).processors@.update(
            hart as int,
            Processor {
                intena: old(kernel).processors@[hart as int].interrupts,
                ..old(kernel).processors@[hart as int]
            },
        ),
{
    current_task(kernel, hart).unwrap()
}

/// What `yield_` does to the kernel: the process that hart `hart` ran is
/// ready and at the tail of the ready queue, and the hart runs nothing.
pub open spec fn yielded(old: &Kernel, new: &Kernel, hart: int) -> bool {
    let cpu = old.processors@[hart];
    let pid = cpu.current.unwrap();
    &&& new.layout == old.layout
    &&& new.entries == old.entries
    &&& new.lazy_heap == old.lazy_heap
    &&& new.frame_allocator == old.frame_allocator
    &&& new.kernel_space == old.kernel_space
    &&& new.pid_allocator == old.pid_allocator
    &&& new.apps == old.apps
    &&& new.processors@ == old.processors@.update(
        hart,
        Processor { current: None, intena: cpu.interrupts, ..cpu },
    )
    &&& new.task_manager@ == old.task_manager@.push(pid)
    &&& new.procs().dom() == old.procs().dom()
    &&& new.procs()[pid].inner.task_status == TaskStatus::Ready
    &&& new.procs()[pid].pid == old.procs()[pid].pid
    &&& new.procs()[pid].kernel_stack == old.procs()[pid].kernel_stack
    &&& old.procs()[pid].inner.same_but_memory(
        &(TaskControlBlockInner { task_status: TaskStatus::Running, ..new.procs()[pid].inner }),
    )
    &&& new.procs()[pid].inner.memory_set == old.procs()[pid].inner.memory_set
    &&& new.procs()[pid].inner.program_brk == old.procs()[pid].inner.program_brk
    &&& forall|q: usize|
        q != pid && old.procs().contains_key(q) ==> #[trigger] new.procs()[q] == old.procs()[q]
}

/// The process that hart `hart` runs gives up the hart: it becomes ready
/// and joins the tail of the ready queue.
pub fn yield_(kernel: &mut Kernel, hart: usize)
    requires
        old(kernel).wf(),
        hart < MAX_CPU_NUM,
        old(kernel).processors@[hart as int].current.is_some(),
    ensures
        final(kernel).wf(),
        yielded(old(kernel), final(kernel), hart as int),
{
    let ghost k0 = *kernel;
    let _task = get_current_task(kernel, hart);
    let ghost k1 = *kernel;
    let mut cpu = kernel.take_cpu(hart);
    push_off(&mut cpu);
    kernel.put_cpu(hart, cpu);
    let ghost k2 = *kernel;
    proof {
        Kernel::lemma_interrupts_changed(&k1, &k2, hart as int);
    }
    schedule(kernel, hart);
    let ghost k3 = *kernel;
    let mut cpu = kernel.take_cpu(hart);
    pop_off(&mut cpu);
    kernel.put_cpu(hart, cpu);
    proof {
        Kernel::lemma_interrupts_changed(&k3, kernel, hart as int);
        let c0 = k0.processors@[hart as int];
        assert(kernel.processors@ =~= k0.processors@.update(
            hart as int,
            Processor { current: None, intena: c0.interrupts, ..c0 },
        ));
        assert forall|h: int| 0 <= h < kernel.processors@.len() implies (
        #[trigger] kernel.processors@[h]).noff == 0 by {
            if h != hart {
                assert(kernel.processors@[h] == k0.processors@[h]);
            }
        }
    }
}

/// The identifier of the process that hart `hart` runs.
pub fn get_current_pid(kernel: &mut Kernel, hart: usize) -> (r: i64)
    requires
        old(kernel).wf(),
        hart < MAX_CPU_NUM,
        old(kernel).processors@[hart as int].current.is_some(),
    ensures
        Some(r as usize) == old(kernel).processors@[hart as int].current,
        r == old(kernel).processors@[hart as int].current.unwrap() as i64,
        0 <= r < crate::config::PID_LIMIT,
        final(kernel).wf(),
        old(kernel).same_but_harts(final(kernel)),
        final(kernel).processors@ == old(kernel).processors@.update(
            hart as int,
            Processor {
                intena: old(kernel).processors@[hart as int].interrupts,
                ..old(kernel).processors@[hart as int]
            },
        ),
{
    let pid = get_current_task(kernel, hart);
    pid as i64
}

/// The `satp` value of the address space of the process that hart `hart` runs.
pub fn get_current_token(kernel: &mut Kernel, hart: usize) -> (r: u64)
    requires
        old(kernel).wf(),
        hart < MAX_CPU_NUM,
        old(kernel).processors@[hart as int].current.is_some(),
    ensures
        r == 0x8000_0000_0000_0000 + old(kernel).procs()[old(kernel).processors@[hart as int].current.unwrap()].inner.memory_set.table().root(),
        final(kernel).wf(),
        old(kernel).same_but_harts(final(kernel)),
        final(kernel).processors@ == old(kernel).processors@.update(
            hart as int,
            Processor {
                intena: old(kernel).processors@[hart as int].interrupts,
                ..old(kernel).processors@[hart as int]
            },
        ),
{
    let pid = get_current_task(kernel, hart);
    kernel.tasks.get(&pid).unwrap().inner.get_user_token()
}

/// The trap context of the process that hart `hart` runs.
pub fn get_current_trap_cx(kernel: &mut Kernel, hart: usize) -> (r: TrapContext)
    requires
        old(kernel).wf(),
        hart < MAX_CPU_NUM,
        old(kernel).processors@[hart as int].current.is_some(),
    ensures
        r == old(kernel).procs()[old(kernel).processors@[hart as int].current.unwrap()].inner.trap_cx,
        final(kernel).wf(),
        old(kernel).same_but_harts(final(kernel)),
        final(kernel).processors@ == old(kernel).processors@.update(
            hart as int,
            Processor {
                intena: old(kernel).processors@[hart as int].interrupts,
                ..old(kernel).processors@[hart as int]
            },
        ),
{
    let pid = get_current_task(kernel, hart);
    *kernel.tasks.get(&pid).unwrap().inner.get_trap_cx()
}

/// What a change of the memory of process `pid` leaves of the kernel: all
/// but that process and the frame allocator.
pub open spec fn memory_changed(old: &Kernel, new: &Kernel, hart: int, pid: usize) -> bool {
    let cpu = old.processors@[hart];
    &&& new.layout == old.layout
    &&& new.entries == old.entries
    &&& new.lazy_heap == old.lazy_heap
    &&& new.kernel_space == old.kernel_space
    &&& new.pid_allocator == old.pid_allocator
    &&& new.apps == old.apps
    &&& new.task_manager@ == old.task_manager@
    &&& new.processors@ == old.processors@.update(hart, Processor { intena: cpu.interrupts, ..cpu })
    &&& new.procs().dom() == old.procs().dom()
    &&& new.procs()[pid].pid == old.procs()[pid].pid
    &&& new.procs()[pid].kernel_stack == old.procs()[pid].kernel_stack
    &&& forall|q: usize|
        q != pid && old.procs().contains_key(q) ==> #[trigger] new.procs()[q] == old.procs()[q]
}

/// Whether the process that hart `hart` runs may move the end of its heap
/// by `size` bytes, but the allocator has fewer frames than that takes.
pub open spec fn brk_starved(kernel: &Kernel, hart: int, size: i32) -> bool {
    kernel.processors@[hart].current matches Some(pid) && {
        let inner = kernel.procs()[pid].inner;
        inner.brk_allowed(size, kernel.lazy_heap) && kernel.frame_allocator.free_count()
            < inner.brk_demand(size, kernel.lazy_heap)
    }
}

/// Whether the process that hart `hart` runs has no page at address `addr`,
/// and the allocator has fewer frames than mapping one there takes.
pub open spec fn page_starved(kernel: &Kernel, hart: int, addr: VirtAddr) -> bool {
    kernel.processors@[hart].current matches Some(pid) && {
        let inner = kernel.procs()[pid].inner;
        !inner.memory_set@.contains_key((addr.0 / 4096) as u64)
            && kernel.frame_allocator.free_count() < inner.page_demand(addr)
    }
}

/// Moves the end of the heap of the process that hart `hart` runs by `size`
/// bytes and returns the old end; `None` when the hart runs no process or
/// the move is not allowed. Fails exactly when the allocator has fewer
/// frames than an allowed move takes.
pub fn change_program_brk(kernel: &mut Kernel, hart: usize, size: i32) -> (r: Result<
    Option<u64>,
    KernelError,
>)
    requires
        old(kernel).wf(),
        hart < MAX_CPU_NUM,
    ensures
        r.is_err() <==> brk_starved(old(kernel), hart as int, size),
        r matches Err(e) ==> e == KernelError::OutOfFrames,
        r matches Ok(res) ==> {
            &&& final(kernel).wf()
            &&& match old(kernel).processors@[hart as int].current {
                Some(pid) => {
                    let inner = old(kernel).procs()[pid].inner;
                    &&& memory_changed(old(kernel), final(kernel), hart as int, pid)
                    &&& res.is_some() <==> inner.brk_allowed(size, old(kernel).lazy_heap)
                    &&& res.is_some() ==> res == Some(inner.program_brk)
                        && TaskControlBlockInner::brk_moved(
                        &inner,
                        &final(kernel).procs()[pid].inner,
                        size,
                        old(kernel).lazy_heap,
                    )
                    &&& res.is_some() && !old(kernel).lazy_heap
                        ==> final(kernel).frame_allocator.free_count() == old(
                        kernel,
                    ).frame_allocator.free_count() - inner.brk_demand(size, false)
                        + inner.brk_release(size)
                    &&& res.is_none() ==> final(kernel).procs()[pid] == old(kernel).procs()[pid]
                        && final(kernel).frame_allocator == old(kernel).frame_allocator
                },
                None => res.is_none() && old(kernel).same_but_harts(final(kernel)) && final(kernel).processors@ == old(kernel).processors@.update(
                    hart as int,
                    Processor {
                        intena: old(kernel).processors@[hart as int].interrupts,
                        ..old(kernel).processors@[hart as int]
                    },
                ),
            }
        },
{
    let ghost k0 = *kernel;
    let pid = match current_task(kernel, hart) {
        Some(pid) => pid,
        None => {
            return Ok(None);
        },
    };
    let ghost k1 = *kernel;
    let mut task = kernel.tasks.remove(&pid).unwrap();
    let lazy = kernel.lazy_heap;
    let res = match task.change_brk(&mut kernel.frame_allocator, size, lazy) {
        Ok(res) => res,
        Err(e) => {
            return Err(KernelError::from_mem(e));
        },
    };
    kernel.tasks.insert(pid, task);
    proof {
        assert(kernel.procs().dom() =~= k1.procs().dom());
        if res.is_some() {
            Kernel::lemma_task_updated(&k1, kernel, pid);
        } else {
            assert(kernel.procs() =~= k1.procs());
        }
    }
    Ok(res)
}

/// Maps the page of address `addr` for the heap of the process that hart
/// `hart` runs; `false` when the hart runs no process or the page is
/// mapped already.
pub fn lazy_alloc_page(kernel: &mut Kernel, hart: usize, addr: VirtAddr) -> (r: Result<
    bool,
    KernelError,
>)
    requires
        old(kernel).wf(),
        hart < MAX_CPU_NUM,
        addr.wf(),
    ensures
        r.is_err() <==> page_starved(old(kernel), hart as int, addr),
        r matches Err(e) ==> e == KernelError::OutOfFrames,
        r matches Ok(mapped) ==> {
            &&& final(kernel).wf()
            &&& match old(kernel).processors@[hart as int].current {
                Some(pid) => {
                    let inner = old(kernel).procs()[pid].inner;
                    let v = (addr.0 / 4096) as u64;
                    &&& memory_changed(old(kernel), final(kernel), hart as int, pid)
                    &&& mapped == !inner.memory_set@.contains_key(v)
                    &&& inner.same_but_memory(&final(kernel).procs()[pid].inner)
                    &&& final(kernel).procs()[pid].inner.program_brk == inner.program_brk
                    &&& mapped ==> {
                        let ms = final(kernel).procs()[pid].inner.memory_set;
                        &&& ms.areas().contains_key(v)
                        &&& MemorySet::single_page(ms.areas()[v])
                        &&& ms.areas()[v].perm().bits == 22
                        &&& MemorySet::pushed(&inner.memory_set, &ms, ms.areas()[v], None)
                    }
                    &&& !mapped ==> final(kernel).procs()[pid] == old(kernel).procs()[pid]
                        && final(kernel).frame_allocator == old(kernel).frame_allocator
                },
                None => !mapped && old(kernel).same_but_harts(final(kernel)) && final(kernel).processors@ == old(kernel).processors@.update(
                    hart as int,
                    Processor {
                        intena: old(kernel).processors@[hart as int].interrupts,
                        ..old(kernel).processors@[hart as int]
                    },
                ),
            }
        },
{
    let ghost k0 = *kernel;
    let pid = match current_task(kernel, hart) {
        Some(pid) => pid,
        None => {
            return Ok(false);
        },
    };
    let ghost k1 = *kernel;
    let mut task = kernel.tasks.remove(&pid).unwrap();
    let mapped = match task.lazy_alloc_page(&mut kernel.frame_allocator, addr) {
        Ok(mapped) => mapped,
        Err(e) => {
            return Err(KernelError::from_mem(e));
        },
    };
    kernel.tasks.insert(pid, task);
    proof {
        assert(kernel.procs().dom() =~= k1.procs().dom());
        if mapped {
            Kernel::lemma_task_updated(&k1, kernel, pid);
        } else {
            assert(kernel.procs() =~= k1.procs());
        }
    }
    Ok(mapped)
}


/// What the kernel is to do once a process has exited.
#[derive(Clone, Copy, Debug, PartialEq, Eq, Structural)]
pub enum ExitAction {
    /// The first process has exited: shut the machine down.
    Shutdown,
    /// Go on with the scheduler of the hart.
    Switch,
}

/// What `exit` with exit code `xcode` does to the kernel when the process
/// that hart `hart` runs is not the first: the process is a zombie with
/// that exit code, without children and without frames; its children are
/// children of the first process, after those it had; the frames of the
/// process are free; and the hart runs nothing.
pub open spec fn exited(old: &Kernel, new: &Kernel, hart: int, xcode: i32) -> bool {
    let cpu = old.processors@[hart];
    let pid = cpu.current.unwrap();
    let gone = old.procs()[pid];
    let orphans = gone.inner.children@;
    let init = old.procs()[INITPROC_PID];
    &&& new.layout == old.layout
    &&& new.entries == old.entries
    &&& new.lazy_heap == old.lazy_heap
    &&& new.apps == old.apps
    &&& new.kernel_space == old.kernel_space
    &&& new.pid_allocator == old.pid_allocator
    &&& new.task_manager@ == old.task_manager@
    &&& new.processors@ == old.processors@.update(
        hart,
        Processor { current: None, intena: cpu.interrupts, ..cpu },
    )
    &&& new.frame_allocator.allocated() == old.frame_allocator.allocated().difference(
        gone.inner.memory_set.owned(),
    )
    &&& new.procs().dom() == old.procs().dom()
    &&& new.procs()[pid].pid == gone.pid
    &&& new.procs()[pid].kernel_stack == gone.kernel_stack
    &&& new.procs()[pid].inner.task_status == TaskStatus::Zombie
    &&& new.procs()[pid].inner.xcode == xcode
    &&& new.procs()[pid].inner.children@.len() == 0
    &&& new.procs()[pid].inner.memory_set.owned() == Set::<u64>::empty()
    &&& new.procs()[pid].inner.parent == gone.inner.parent
    &&& new.procs()[pid].inner.trap_cx == gone.inner.trap_cx
    &&& new.procs()[pid].inner.heap_bottom == gone.inner.heap_bottom
    &&& new.procs()[pid].inner.program_brk == gone.inner.program_brk
    &&& new.procs()[INITPROC_PID].pid == init.pid
    &&& new.procs()[INITPROC_PID].kernel_stack == init.kernel_stack
    &&& new.procs()[INITPROC_PID].inner.memory_set == init.inner.memory_set
    &&& new.procs()[INITPROC_PID].inner.program_brk == init.inner.program_brk
    &&& init.inner.same_but_memory(
        &(TaskControlBlockInner {
            children: init.inner.children,
            ..new.procs()[INITPROC_PID].inner
        }),
    )
    &&& new.procs()[INITPROC_PID].inner.children@ == init.inner.children@ + orphans
    &&& forall|q: usize|
        orphans.contains(q) ==> #[trigger] new.procs()[q] == (TaskControlBlock {
            inner: TaskControlBlockInner { parent: Some(INITPROC_PID), ..old.procs()[q].inner },
            ..old.procs()[q]
        })
    &&& forall|q: usize|
        old.procs().contains_key(q) && q != pid && q != INITPROC_PID && !orphans.contains(q)
            ==> #[trigger] new.procs()[q] == old.procs()[q]
}

/// A process other than the first that has become a zombie as `exited`
/// describes, after it was taken off its hart, leaves the kernel sound.
proof fn lemma_exited(k0: &Kernel, k1: &Kernel, hart: int, pid: usize, xcode: i32)
    requires
        k0.sound_but(Some(pid)),
        0 <= hart < k0.processors@.len(),
        k0.procs().contains_key(pid),
        pid != INITPROC_PID,
        k0.procs()[pid].inner.task_status == TaskStatus::Running,
        forall|h: int|
            0 <= h < k0.processors@.len() ==> (#[trigger] k0.processors@[h]).current != Some(pid),
        k1.processors@ == k0.processors@,
        k1.frame_allocator.wf(),
        // what changed
        k1.layout == k0.layout,
        k1.entries == k0.entries,
        k1.lazy_heap == k0.lazy_heap,
        k1.apps == k0.apps,
        k1.kernel_space == k0.kernel_space,
        k1.pid_allocator == k0.pid_allocator,
        k1.task_manager@ == k0.task_manager@,
        k1.frame_allocator.allocated() == k0.frame_allocator.allocated().difference(
            k0.procs()[pid].inner.memory_set.owned(),
        ),
        k1.procs().dom() == k0.procs().dom(),
        k1.procs()[pid].pid == k0.procs()[pid].pid,
        k1.procs()[pid].kernel_stack == k0.procs()[pid].kernel_stack,
        k1.procs()[pid].inner.task_status == TaskStatus::Zombie,
        k1.procs()[pid].inner.children@.len() == 0,
        k1.procs()[pid].inner.memory_set.owned() == Set::<u64>::empty(),
        k1.procs()[pid].inner.parent == k0.procs()[pid].inner.parent,
        k1.procs()[pid].inner.heap_bottom == k0.procs()[pid].inner.heap_bottom,
        k1.procs()[pid].inner.program_brk == k0.procs()[pid].inner.program_brk,
        k1.procs()[INITPROC_PID].pid == k0.procs()[INITPROC_PID].pid,
        k1.procs()[INITPROC_PID].kernel_stack == k0.procs()[INITPROC_PID].kernel_stack,
        k1.procs()[INITPROC_PID].inner.memory_set == k0.procs()[INITPROC_PID].inner.memory_set,
        k1.procs()[INITPROC_PID].inner.program_brk == k0.procs()[INITPROC_PID].inner.program_brk,
        k0.procs()[INITPROC_PID].inner.same_but_memory(
            &(TaskControlBlockInner {
                children: k0.procs()[INITPROC_PID].inner.children,
                ..k1.procs()[INITPROC_PID].inner
            }),
        ),
        k1.procs()[INITPROC_PID].inner.children@ == k0.procs()[INITPROC_PID].inner.children@
            + k0.procs()[pid].inner.children@,
        forall|q: usize|
            k0.procs()[pid].inner.children@.contains(q) ==> #[trigger] k1.procs()[q]
                == (TaskControlBlock {
                inner: TaskControlBlockInner {
                    parent: Some(INITPROC_PID),
                    ..k0.procs()[q].inner
                },
                ..k0.procs()[q]
            }),
        forall|q: usize|
            k0.procs().contains_key(q) && q != pid && q != INITPROC_PID
                && !k0.procs()[pid].inner.children@.contains(q) ==> #[trigger] k1.procs()[q]
                == k0.procs()[q],
    ensures
        k1.sound(),
{
    let t0 = k0.procs();
    let t1 = k1.procs();
    let orphans = t0[pid].inner.children@;
    let init0 = t0[INITPROC_PID].inner.children@;
    let init1 = t1[INITPROC_PID].inner.children@;
    assert(t0.contains_key(INITPROC_PID));
    // What every process keeps.
    assert forall|x: usize| t0.contains_key(x) implies t1[x].pid == t0[x].pid && t1[x].kernel_stack
        == t0[x].kernel_stack && t1[x].inner.heap_bottom == t0[x].inner.heap_bottom
        && t1[x].inner.program_brk == t0[x].inner.program_brk && (x != pid
        ==> t1[x].inner.task_status == t0[x].inner.task_status && t1[x].inner.memory_set
        == t0[x].inner.memory_set && t1[x].inner.trap_cx_ppn == t0[x].inner.trap_cx_ppn) && (x
        != INITPROC_PID && x != pid ==> t1[x].inner.children == t0[x].inner.children) && (
    !orphans.contains(x) ==> t1[x].inner.parent == t0[x].inner.parent) by {
        if x != pid && x != INITPROC_PID {
            if orphans.contains(x) {
                assert(t1[x] == (TaskControlBlock {
                    inner: TaskControlBlockInner {
                        parent: Some(INITPROC_PID),
                        ..t0[x].inner
                    },
                    ..t0[x]
                }));
            } else {
                assert(t1[x] == t0[x]);
            }
        }
    }
    // An orphan is a child of the process, is neither it nor the first
    // process, and is not yet a child of the first process.
    assert forall|x: usize| orphans.contains(x) implies t0.contains_key(x) && t0[x].inner.parent
        == Some(pid) && x != pid && x != INITPROC_PID && !init0.contains(x) by {
        let i = choose|i: int| 0 <= i < orphans.len() && orphans[i] == x;
        assert(t0.contains_key(t0[pid].inner.children@[i]));
        if init0.contains(x) {
            let j = choose|j: int| 0 <= j < init0.len() && init0[j] == x;
            assert(t0.contains_key(t0[INITPROC_PID].inner.children@[j]));
        }
    }
    // frames
    let o0 = owned_map(t0);
    let o1 = owned_map(t1);
    let ks = k0.kernel_space.table().owned();
    let a0 = k0.frame_allocator.allocated();
    let a1 = k1.frame_allocator.allocated();
    assert(o0.contains_key(pid));
    assert(a1.difference(Set::<u64>::empty()) =~= a0.difference(o0[pid]));
    lemma_frames_task_changed(o0, ks, a0, pid, Set::<u64>::empty(), a1);
    assert(o1 =~= o0.insert(pid, Set::<u64>::empty())) by {
        assert forall|q: usize| o1.contains_key(q) implies o1[q] == o0.insert(
            pid,
            Set::<u64>::empty(),
        )[q] by {
            assert(t0.contains_key(q));
        }
    }
    assert forall|x: usize| #[trigger] t1.contains_key(x) implies t1[x].wf() && t1[x].pid.0 == x && (
    t1[x].inner.task_status != TaskStatus::Zombie ==> t1[x].inner.memory_set.accounted(
        &k1.frame_allocator,
    )) by {
        assert(t0.contains_key(x));
        assert(t0[x].wf());
        if x != pid {
            assert forall|p: u64| #[trigger]
                t1[x].inner.memory_set.table().owned().contains(p) implies k1.frame_allocator.is_allocated(
                p,
            ) by {
                assert(o1.contains_key(x) && o1[x].contains(p));
                assert(a1.contains(p));
            }
        }
    }
    assert(stacks_inv(t1.dom(), &k1.kernel_space));
    // families
    assert(family_inv(t1)) by {
        assert forall|x: usize| #[trigger] t1.contains_key(x) implies t1[x].inner.children@.no_duplicates() by {
            assert(t0.contains_key(x));
            if x == INITPROC_PID {
                assert(init0.no_duplicates());
                assert(orphans.no_duplicates());
                assert forall|i: int, j: int|
                    0 <= i < init1.len() && 0 <= j < init1.len() && i != j implies init1[i]
                    != init1[j] by {
                    if i < init0.len() && j >= init0.len() {
                        assert(init0.contains(init1[i]));
                        assert(orphans.contains(orphans[j - init0.len()]));
                    }
                    if j < init0.len() && i >= init0.len() {
                        assert(init0.contains(init1[j]));
                        assert(orphans.contains(orphans[i - init0.len()]));
                    }
                }
            }
        }
        assert forall|x: usize, i: int|
            t1.contains_key(x) && 0 <= i < t1[x].inner.children@.len() implies {
            let y = #[trigger] t1[x].inner.children@[i];
            &&& t1.contains_key(y)
            &&& t1[y].inner.parent == Some(x)
        } by {
            assert(t0.contains_key(x));
            if x == INITPROC_PID {
                if i < init0.len() {
                    let y = t0[INITPROC_PID].inner.children@[i];
                    assert(t0.contains_key(y));
                    assert(init0.contains(y));
                    assert(!orphans.contains(y));
                } else {
                    assert(orphans.contains(orphans[i - init0.len()]));
                }
            } else {
                let y = t0[x].inner.children@[i];
                assert(t0.contains_key(y));
                assert(t0[y].inner.parent == Some(x));
                if orphans.contains(y) {
                    assert(t0[y].inner.parent == Some(pid));
                }
            }
        }
        assert forall|x: usize| #[trigger] t1.contains_key(x) implies (
        t1[x].inner.parent matches Some(q) ==> t1.contains_key(q) && q != x
            && t1[q].inner.children@.contains(x)) by {
            assert(t0.contains_key(x));
            if orphans.contains(x) {
                let i = choose|i: int| 0 <= i < orphans.len() && orphans[i] == x;
                assert(init1[init0.len() + i] == x);
            } else if let Some(q) = t0[x].inner.parent {
                assert(t0[q].inner.children@.contains(x));
                assert(q != pid);
                let i = choose|i: int|
                    0 <= i < t0[q].inner.children@.len() && t0[q].inner.children@[i] == x;
                if q == INITPROC_PID {
                    assert(init1[i] == x);
                }
            }
        }
        assert forall|x: usize| #[trigger] t1.contains_key(x) implies {
            &&& t1.contains_key(INITPROC_PID)
            &&& t1[INITPROC_PID].inner.task_status != TaskStatus::Zombie
            &&& (x == INITPROC_PID <==> t1[x].inner.parent.is_none())
        } by {
            assert(t0.contains_key(x));
        }
    }
    // scheduling
    assert(sched_inv(t1, k1.task_manager@, k1.processors@)) by {
        let q = k0.task_manager@;
        let cpus = k0.processors@;
        assert forall|i: int| 0 <= i < q.len() implies t1.contains_key(#[trigger] q[i])
            && t1[q[i]].inner.task_status == TaskStatus::Ready by {
            assert(t0.contains_key(q[i]));
        }
        assert forall|h: int| 0 <= h < cpus.len() implies ((#[trigger] cpus[h]).current matches Some(
            x,
        ) ==> t1.contains_key(x) && t1[x].inner.task_status == TaskStatus::Running) by {
            if let Some(x) = cpus[h].current {
                assert(t0.contains_key(x));
            }
        }
    }
}

/// Ends the process that hart `hart` runs, with exit code `xcode`. The
/// first process ends the whole machine. Any other becomes a zombie: its
/// children become children of the first process, its frames go back to
/// the allocator, and the hart goes on with its scheduler.
pub fn exit(kernel: &mut Kernel, hart: usize, xcode: i32) -> (r: ExitAction)
    requires
        old(kernel).wf(),
        hart < MAX_CPU_NUM,
        old(kernel).processors@[hart as int].current.is_some(),
    ensures
        final(kernel).wf(),
        old(kernel).processors@[hart as int].current == Some(INITPROC_PID) ==> r
            == ExitAction::Shutdown && old(kernel).same_but_harts(final(kernel)) && final(kernel).processors@ == old(kernel).processors@.update(
            hart as int,
            Processor {
                intena: old(kernel).processors@[hart as int].interrupts,
                ..old(kernel).processors@[hart as int]
            },
        ),
        old(kernel).processors@[hart as int].current != Some(INITPROC_PID) ==> r
            == ExitAction::Switch && exited(old(kernel), final(kernel), hart as int, xcode),
{
    let ghost k0 = *kernel;
    let pid = get_current_task(kernel, hart);
    if pid == INITPROC_PID {
        return ExitAction::Shutdown;
    }
    let ghost k1 = *kernel;
    let mut cpu = kernel.take_cpu(hart);
    push_off(&mut cpu);
    kernel.put_cpu(hart, cpu);
    let ghost k2 = *kernel;
    proof {
        Kernel::lemma_interrupts_changed(&k1, &k2, hart as int);
    }
    let _ = take_current_task(kernel, hart);
    let ghost k3 = *kernel;
    let mut task = kernel.tasks.remove(&pid).unwrap();
    proof {
        assert(k0.procs().contains_key(INITPROC_PID));
    }
    let mut initproc = kernel.tasks.remove(&INITPROC_PID).unwrap();
    let ghost t0 = k0.procs();
    let ghost orphans = task.inner.children@;
    let ghost init0 = initproc.inner.children@;
    proof {
        assert forall|x: usize| orphans.contains(x) implies t0.contains_key(x) && x != pid && x
            != INITPROC_PID by {
            let i = choose|i: int| 0 <= i < orphans.len() && orphans[i] == x;
            assert(t0.contains_key(t0[pid].inner.children@[i]));
        }
    }
    let mut i: usize = 0;
    while i < task.inner.children.len()
        invariant
            i <= orphans.len(),
            task == t0[pid],
            orphans == task.inner.children@,
            orphans.no_duplicates(),
            pid != INITPROC_PID,
            forall|x: usize|
                orphans.contains(x) ==> t0.contains_key(x) && x != pid && x != INITPROC_PID,
            kernel.procs().dom() == t0.dom().remove(pid).remove(INITPROC_PID),
            forall|j: int|
                0 <= j < i ==> #[trigger] kernel.procs()[orphans[j]] == (TaskControlBlock {
                    inner: TaskControlBlockInner {
                        parent: Some(INITPROC_PID),
                        ..t0[orphans[j]].inner
                    },
                    ..t0[orphans[j]]
                }),
            forall|q: usize|
                t0.contains_key(q) && q != pid && q != INITPROC_PID && !orphans.take(
                    i as int,
                ).contains(q) ==> #[trigger] kernel.procs()[q] == t0[q],
            initproc.pid == t0[INITPROC_PID].pid,
            initproc.kernel_stack == t0[INITPROC_PID].kernel_stack,
            initproc.inner.memory_set == t0[INITPROC_PID].inner.memory_set,
            initproc.inner.program_brk == t0[INITPROC_PID].inner.program_brk,
            t0[INITPROC_PID].inner.same_but_memory(
                &(TaskControlBlockInner {
                    children: t0[INITPROC_PID].inner.children,
                    ..initproc.inner
                }),
            ),
            initproc.inner.children@ == init0 + orphans.take(i as int),
            init0 == t0[INITPROC_PID].inner.children@,
            k3.same_but_tasks(kernel),
            kernel.frame_allocator == k3.frame_allocator,
        decreases orphans.len() - i,
    {
        let c = task.inner.children[i];
        let ghost before = kernel.procs();
        proof {
            assert(orphans.contains(c));
            assert(!orphans.take(i as int).contains(c)) by {
                let t = orphans.take(i as int);
                if t.contains(c) {
                    let j = choose|j: int| 0 <= j < t.len() && t[j] == c;
                    assert(orphans[j] == c);
                }
            }
            assert(kernel.procs().dom().contains(c));
        }
        let mut child = kernel.tasks.remove(&c).unwrap();
        child.inner.parent = Some(INITPROC_PID);
        kernel.tasks.insert(c, child);
        initproc.inner.children.push(c);
        proof {
            assert(kernel.procs().dom() =~= t0.dom().remove(pid).remove(INITPROC_PID));
            assert(orphans.take(i as int + 1) =~= orphans.take(i as int).push(c));
            assert(initproc.inner.children@ =~= init0 + orphans.take(i as int + 1));
            assert forall|j: int| 0 <= j < i + 1 implies #[trigger] kernel.procs()[orphans[j]] == (
            TaskControlBlock {
                inner: TaskControlBlockInner {
                    parent: Some(INITPROC_PID),
                    ..t0[orphans[j]].inner
                },
                ..t0[orphans[j]]
            }) by {
                if j < i {
                    assert(orphans[j] != c);
                    assert(before[orphans[j]] == kernel.procs()[orphans[j]]);
                }
            }
            assert forall|q: usize|
                t0.contains_key(q) && q != pid && q != INITPROC_PID && !orphans.take(
                    i as int + 1,
                ).contains(q) implies #[trigger] kernel.procs()[q] == t0[q] by {
                assert(q != c) by {
                    assert(orphans.take(i as int + 1)[i as int] == c);
                }
                if orphans.take(i as int).contains(q) {
                    let t = orphans.take(i as int);
                    let j = choose|j: int| 0 <= j < t.len() && t[j] == q;
                    assert(orphans.take(i as int + 1)[j] == q);
                }
                assert(before[q] == t0[q]);
            }
        }
        i += 1;
    }
    proof {
        assert(orphans.take(orphans.len() as int) =~= orphans);
        assert(t0[pid].inner.task_status == TaskStatus::Running);
        assert(task.inner.memory_set.accounted(&kernel.frame_allocator));
    }
    task.inner.task_status = TaskStatus::Zombie;
    task.inner.xcode = xcode;
    task.inner.children.clear();
    task.inner.memory_set.recycle_pages(&mut kernel.frame_allocator);
    kernel.tasks.insert(INITPROC_PID, initproc);
    kernel.tasks.insert(pid, task);
    proof {
        assert(kernel.procs().dom() =~= t0.dom());
        assert forall|q: usize| orphans.contains(q) implies #[trigger] kernel.procs()[q] == (
        TaskControlBlock {
            inner: TaskControlBlockInner { parent: Some(INITPROC_PID), ..t0[q].inner },
            ..t0[q]
        }) by {
            let j = choose|j: int| 0 <= j < orphans.len() && orphans[j] == q;
        }
        assert forall|h: int| 0 <= h < k3.processors@.len() implies (
        #[trigger] k3.processors@[h]).current != Some(pid) by {
            if h != hart {
                assert(k3.processors@[h] == k0.processors@[h]);
                assert(k0.processors@[hart as int].current.is_some());
            }
        }
        assert(k3.sound_but(Some(pid))) by {
            lemma_taken(&k2, &k3, hart as int);
        }
        lemma_exited(&k3, kernel, hart as int, pid, xcode);
    }
    schedule(kernel, hart);
    let ghost k5 = *kernel;
    let mut cpu = kernel.take_cpu(hart);
    pop_off(&mut cpu);
    kernel.put_cpu(hart, cpu);
    proof {
        Kernel::lemma_interrupts_changed(&k5, kernel, hart as int);
        let c0 = k0.processors@[hart as int];
        assert(kernel.processors@ =~= k0.processors@.update(
            hart as int,
            Processor { current: None, intena: c0.interrupts, ..c0 },
        ));
        assert forall|h: int| 0 <= h < kernel.processors@.len() implies (
        #[trigger] kernel.processors@[h]).noff == 0 by {
            if h != hart {
                assert(kernel.processors@[h] == k0.processors@[h]);
            }
        }
    }
    ExitAction::Switch
}

/// Taking the running process off a hart leaves the kernel sound, but
/// for that process being on no hart any more.
proof fn lemma_taken(k0: &Kernel, k1: &Kernel, hart: int)
    requires
        k0.sound(),
        0 <= hart < k0.processors@.len(),
        k0.same_but_harts(k1),
        k1.processors@ == k0.processors@.update(
            hart,
            Processor { current: None, ..k0.processors@[hart] },
        ),
    ensures
        k1.sound_but(k0.processors@[hart].current),
{
    let c0 = k0.processors@;
    let c1 = k1.processors@;
    assert forall|pid: usize| #[trigger]
        k1.procs().contains_key(pid) && k1.procs()[pid].inner.task_status
            == TaskStatus::Running implies on_hart(c1, pid) || c0[hart].current == Some(pid) by {
        assert(k0.procs().contains_key(pid));
        assert(on_hart(c0, pid));
        let h = choose|h: int| 0 <= h < c0.len() && (#[trigger] c0[h]).current == Some(pid);
        if h != hart {
            assert(c1[h] == c0[h]);
        }
    }
    assert forall|h: int| 0 <= h < c1.len() implies ((#[trigger] c1[h]).current matches Some(pid)
        ==> k1.procs().contains_key(pid) && k1.procs()[pid].inner.task_status
        == TaskStatus::Running) by {
        if h != hart {
            assert(c1[h] == c0[h]);
        }
    }
    assert forall|h1: int, h2: int|
        0 <= h1 < c1.len() && 0 <= h2 < c1.len() && h1 != h2 && (
        #[trigger] c1[h1]).current.is_some() implies c1[h1].current != (#[trigger] c1[h2]).current by {
        assert(c1[h1] == c0[h1]);
        if h2 != hart {
            assert(c1[h2] == c0[h2]);
        }
    }
}

} // verus!
