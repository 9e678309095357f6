//! The state of the whole kernel and what holds of it between any two steps.

use vstd::prelude::*;
use std::collections::BTreeMap;
use crate::config::{MAX_CPU_NUM, MEMORY_END, PID_LIMIT};
use crate::error::KernelError;
use crate::loader::AppRegistry;
use crate::mm::frame_allocator::StackFrameAllocator;
use crate::mm::demand::tables_needed;
use crate::mm::kernel_space::{kernel_demand, kernel_plan, sections_protected};
use crate::mm::memory_set::{
    foreign, trampoline_lacks, trampoline_vpn, trap_context_vpn, MapArea, MemorySet,
};
use crate::mm::user_space::lacks_after_plan;
use crate::task::manager::TaskManager;
use crate::task::pid::{kernel_stack_vpn, PidAllocator};
use crate::task::processor::{Processor, Processors};
use crate::task::task::{TaskControlBlock, TaskStatus};
use crate::vars::{KernelEntries, KernelLayout};

verus! {

/// Identifier of the first process, which adopts orphans and never exits.
pub const INITPROC_PID: usize = 0;

/// Everything the kernel keeps: the frame and identifier allocators, its own
/// address space, the processes by identifier, the ready queue, the harts
/// and the built-in programs.
pub struct Kernel {
    pub layout: KernelLayout,
    pub entries: KernelEntries,
    /// Whether heap pages are mapped when first touched rather than when the break moves.
    pub lazy_heap: bool,
    pub frame_allocator: StackFrameAllocator,
    pub kernel_space: MemorySet,
    pub pid_allocator: PidAllocator,
    pub tasks: BTreeMap<usize, TaskControlBlock>,
    pub task_manager: TaskManager,
    pub processors: Processors,
    pub apps: AppRegistry,
}

/// The frames each process owns, by process.
pub open spec fn owned_map(tasks: Map<usize, TaskControlBlock>) -> Map<usize, Set<u64>> {
    Map::new(
        |pid: usize| tasks.contains_key(pid),
        |pid: usize| tasks[pid].inner.memory_set.table().owned(),
    )
}

/// Whether some process owns frame `p`.
pub open spec fn some_owner(owners: Map<usize, Set<u64>>, p: u64) -> bool {
    exists|pid: usize| owners.contains_key(pid) && #[trigger] owners[pid].contains(p)
}

/// Every frame that is handed out has exactly one owner, the kernel's
/// address space or one process, and every owned frame is handed out.
pub open spec fn frames_inv(owners: Map<usize, Set<u64>>, kernel: Set<u64>, allocated: Set<u64>) -> bool {
    &&& kernel.subset_of(allocated)
    &&& forall|pid: usize, p: u64|
        owners.contains_key(pid) && #[trigger] owners[pid].contains(p) ==> allocated.contains(p)
            && !kernel.contains(p)
    &&& forall|pid1: usize, pid2: usize, p: u64|
        owners.contains_key(pid1) && owners.contains_key(pid2) && pid1 != pid2 ==> !(
        #[trigger] owners[pid1].contains(p) && #[trigger] owners[pid2].contains(p))
    &&& forall|p: u64| #[trigger] allocated.contains(p) ==> kernel.contains(p) || some_owner(owners, p)
}

/// One process trades frames with the allocator: what the allocator has
/// handed out to others stays the same.
pub proof fn lemma_frames_task_changed(
    owners: Map<usize, Set<u64>>,
    kernel: Set<u64>,
    allocated: Set<u64>,
    pid: usize,
    owned1: Set<u64>,
    allocated1: Set<u64>,
)
    requires
        frames_inv(owners, kernel, allocated),
        owners.contains_key(pid),
        owned1.subset_of(allocated1),
        allocated1.difference(owned1) == allocated.difference(owners[pid]),
    ensures
        frames_inv(owners.insert(pid, owned1), kernel, allocated1),
{
    let owners1 = owners.insert(pid, owned1);
    assert forall|p: u64| kernel.contains(p) implies allocated1.contains(p) by {
        assert(allocated.contains(p));
        if owners[pid].contains(p) {
        }
        assert(allocated.difference(owners[pid]).contains(p));
        assert(allocated1.difference(owned1).contains(p));
    }
    assert forall|q: usize, p: u64|
        owners1.contains_key(q) && #[trigger] owners1[q].contains(p) implies allocated1.contains(p)
        && !kernel.contains(p) by {
        if q == pid {
            if kernel.contains(p) {
                assert(allocated.contains(p));
                assert(allocated.difference(owners[pid]).contains(p) || owners[pid].contains(p));
                if owners[pid].contains(p) {
                } else {
                    assert(allocated1.difference(owned1).contains(p));
                }
            }
        } else {
            assert(owners[q].contains(p));
            assert(!owners[pid].contains(p));
            assert(allocated.difference(owners[pid]).contains(p));
            assert(allocated1.difference(owned1).contains(p));
        }
    }
    assert forall|pid1: usize, pid2: usize, p: u64|
        owners1.contains_key(pid1) && owners1.contains_key(pid2) && pid1 != pid2 implies !(
    #[trigger] owners1[pid1].contains(p) && #[trigger] owners1[pid2].contains(p)) by {
        if owners1[pid1].contains(p) && owners1[pid2].contains(p) {
            let other = if pid1 == pid {
                pid2
            } else {
                pid1
            };
            if pid1 == pid || pid2 == pid {
                assert(owners[other].contains(p));
                assert(!owners[pid].contains(p));
                assert(allocated.difference(owners[pid]).contains(p));
                assert(allocated1.difference(owned1).contains(p));
            } else {
                assert(owners[pid1].contains(p) && owners[pid2].contains(p));
            }
        }
    }
    assert forall|p: u64| #[trigger] allocated1.contains(p) implies kernel.contains(p) || some_owner(
        owners1,
        p,
    ) by {
        if owned1.contains(p) {
            assert(owners1.contains_key(pid) && owners1[pid].contains(p));
        } else {
            assert(allocated1.difference(owned1).contains(p));
            assert(allocated.difference(owners[pid]).contains(p));
            if !kernel.contains(p) {
                assert(some_owner(owners, p));
                let q = choose|q: usize| owners.contains_key(q) && #[trigger] owners[q].contains(p);
                assert(q != pid);
                assert(owners1.contains_key(q) && owners1[q].contains(p));
            }
        }
    }
}

/// The kernel's address space trades frames with the allocator.
pub proof fn lemma_frames_kernel_changed(
    owners: Map<usize, Set<u64>>,
    kernel: Set<u64>,
    allocated: Set<u64>,
    kernel1: Set<u64>,
    allocated1: Set<u64>,
)
    requires
        frames_inv(owners, kernel, allocated),
        kernel1.subset_of(allocated1),
        allocated1.difference(kernel1) == allocated.difference(kernel),
    ensures
        frames_inv(owners, kernel1, allocated1),
{
    assert forall|q: usize, p: u64|
        owners.contains_key(q) && #[trigger] owners[q].contains(p) implies allocated1.contains(p)
        && !kernel1.contains(p) by {
        assert(allocated.difference(kernel).contains(p));
        assert(allocated1.difference(kernel1).contains(p));
    }
    assert forall|p: u64| #[trigger] allocated1.contains(p) implies kernel1.contains(p) || some_owner(
        owners,
        p,
    ) by {
        if !kernel1.contains(p) {
            assert(allocated1.difference(kernel1).contains(p));
            assert(allocated.difference(kernel).contains(p));
        }
    }
}

/// A new process appears with frames that were not handed out before.
pub proof fn lemma_frames_task_added(
    owners: Map<usize, Set<u64>>,
    kernel: Set<u64>,
    allocated: Set<u64>,
    pid: usize,
    owned1: Set<u64>,
    allocated1: Set<u64>,
)
    requires
        frames_inv(owners, kernel, allocated),
        !owners.contains_key(pid),
        owned1.subset_of(allocated1),
        allocated1.difference(owned1) == allocated,
    ensures
        frames_inv(owners.insert(pid, owned1), kernel, allocated1),
{
    let owners1 = owners.insert(pid, owned1);
    assert forall|p: u64| kernel.contains(p) implies allocated1.contains(p) by {
        assert(allocated1.difference(owned1).contains(p));
    }
    assert forall|q: usize, p: u64|
        owners1.contains_key(q) && #[trigger] owners1[q].contains(p) implies allocated1.contains(p)
        && !kernel.contains(p) by {
        if q == pid {
            if kernel.contains(p) {
                assert(allocated1.difference(owned1).contains(p));
            }
        } else {
            assert(owners[q].contains(p));
            assert(allocated1.difference(owned1).contains(p));
        }
    }
    assert forall|pid1: usize, pid2: usize, p: u64|
        owners1.contains_key(pid1) && owners1.contains_key(pid2) && pid1 != pid2 implies !(
    #[trigger] owners1[pid1].contains(p) && #[trigger] owners1[pid2].contains(p)) by {
        if owners1[pid1].contains(p) && owners1[pid2].contains(p) {
            let other = if pid1 == pid {
                pid2
            } else {
                pid1
            };
            if pid1 == pid || pid2 == pid {
                assert(owners[other].contains(p));
                assert(allocated.contains(p));
                assert(allocated1.difference(owned1).contains(p));
            } else {
                assert(owners[pid1].contains(p) && owners[pid2].contains(p));
            }
        }
    }
    assert forall|p: u64| #[trigger] allocated1.contains(p) implies kernel.contains(p) || some_owner(
        owners1,
        p,
    ) by {
        if owned1.contains(p) {
            assert(owners1.contains_key(pid) && owners1[pid].contains(p));
        } else {
            assert(allocated1.difference(owned1).contains(p));
            if !kernel.contains(p) {
                let q = choose|q: usize| owners.contains_key(q) && #[trigger] owners[q].contains(p);
                assert(owners1.contains_key(q) && owners1[q].contains(p));
            }
        }
    }
}

/// A process that owns no frame disappears.
pub proof fn lemma_frames_task_removed(
    owners: Map<usize, Set<u64>>,
    kernel: Set<u64>,
    allocated: Set<u64>,
    pid: usize,
)
    requires
        frames_inv(owners, kernel, allocated),
        owners.contains_key(pid),
        owners[pid] == Set::<u64>::empty(),
    ensures
        frames_inv(owners.remove(pid), kernel, allocated),
{
    let owners1 = owners.remove(pid);
    assert forall|p: u64| #[trigger] allocated.contains(p) implies kernel.contains(p) || some_owner(
        owners1,
        p,
    ) by {
        if !kernel.contains(p) {
            let q = choose|q: usize| owners.contains_key(q) && #[trigger] owners[q].contains(p);
            assert(q != pid);
            assert(owners1.contains_key(q) && owners1[q].contains(p));
        }
    }
}

/// Every live process has its kernel stack mapped in the kernel's address
/// space, and the stack pages of every other identifier are unmapped.
pub open spec fn stacks_inv(live: Set<usize>, kernel_space: &MemorySet) -> bool {
    forall|pid: usize|
        pid < PID_LIMIT ==> if #[trigger] live.contains(pid) {
            &&& kernel_space.areas().contains_key(kernel_stack_vpn(pid))
            &&& kernel_space.areas()[kernel_stack_vpn(pid)].end() == kernel_stack_vpn(pid) + 2
        } else {
            &&& !kernel_space@.contains_key(kernel_stack_vpn(pid))
            &&& !kernel_space@.contains_key((kernel_stack_vpn(pid) + 1) as u64)
        }
}

/// Parents and children agree: every child of a process is alive and names
/// it as its parent, no process is listed twice, and the parent of every
/// process is alive and lists it. The first process has no parent and is no
/// zombie; every other process has a parent.
pub open spec fn family_inv(tasks: Map<usize, TaskControlBlock>) -> bool {
    &&& forall|pid: usize| #[trigger]
        tasks.contains_key(pid) ==> tasks[pid].inner.children@.no_duplicates()
    &&& forall|pid: usize, i: int|
        tasks.contains_key(pid) && 0 <= i < tasks[pid].inner.children@.len() ==> {
            let c = #[trigger] tasks[pid].inner.children@[i];
            &&& tasks.contains_key(c)
            &&& tasks[c].inner.parent == Some(pid)
        }
    &&& forall|pid: usize| #[trigger]
        tasks.contains_key(pid) ==> (tasks[pid].inner.parent matches Some(q) ==> tasks.contains_key(q)
            && q != pid && tasks[q].inner.children@.contains(pid))
    &&& forall|pid: usize| #[trigger]
        tasks.contains_key(pid) ==> {
            &&& tasks.contains_key(INITPROC_PID)
            &&& tasks[INITPROC_PID].inner.task_status != TaskStatus::Zombie
            &&& (pid == INITPROC_PID <==> tasks[pid].inner.parent.is_none())
        }
}

/// Whether some hart runs process `pid`.
pub open spec fn on_hart(cpus: Seq<Processor>, pid: usize) -> bool {
    exists|h: int| 0 <= h < cpus.len() && (#[trigger] cpus[h]).current == Some(pid)
}

/// The ready queue names each process at most once, and exactly the
/// processes that are ready; each hart runs a process that is marked
/// running, no two harts the same, and every running process is on a hart.
pub open spec fn sched_inv(
    tasks: Map<usize, TaskControlBlock>,
    queue: Seq<usize>,
    cpus: Seq<Processor>,
) -> bool {
    sched_inv_but(tasks, queue, cpus, None)
}

/// What `sched_inv` asks, but for process `off`, which may be marked
/// running though it has just been taken off its hart.
pub open spec fn sched_inv_but(
    tasks: Map<usize, TaskControlBlock>,
    queue: Seq<usize>,
    cpus: Seq<Processor>,
    off: Option<usize>,
) -> bool {
    &&& queue.no_duplicates()
    &&& forall|pid: usize| #[trigger]
        tasks.contains_key(pid) ==> match tasks[pid].inner.task_status {
            TaskStatus::Ready => queue.contains(pid),
            TaskStatus::Running => on_hart(cpus, pid) || off == Some(pid),
            _ => true,
        }
    &&& forall|i: int|
        0 <= i < queue.len() ==> tasks.contains_key(#[trigger] queue[i]) && tasks[queue[i]].inner.task_status
            == TaskStatus::Ready
    &&& forall|h: int|
        0 <= h < cpus.len() ==> ((#[trigger] cpus[h]).current matches Some(pid)
            ==> tasks.contains_key(pid) && tasks[pid].inner.task_status == TaskStatus::Running)
    &&& forall|h1: int, h2: int|
        0 <= h1 < cpus.len() && 0 <= h2 < cpus.len() && h1 != h2 && (#[trigger] cpus[h1]).current.is_some()
            ==> cpus[h1].current != (#[trigger] cpus[h2]).current
}

/// Whether no hart has interrupts switched off by count.
pub open spec fn nothing_held(cpus: Seq<Processor>) -> bool {
    forall|h: int| 0 <= h < cpus.len() ==> (#[trigger] cpus[h]).noff == 0
}

impl Kernel {
    /// The processes, by identifier.
    pub open spec fn procs(&self) -> Map<usize, TaskControlBlock> {
        self.tasks@
    }

    /// What holds of the kernel between any two of its steps.
    pub open spec fn wf(&self) -> bool {
        &&& self.sound()
        &&& nothing_held(self.processors@)
    }

    /// What holds of the kernel at any time, however deep interrupts are switched off.
    pub open spec fn sound(&self) -> bool {
        self.sound_but(None)
    }

    /// What `sound` asks, but for process `off`, which may be marked
    /// running though it has just been taken off its hart.
    pub open spec fn sound_but(&self, off: Option<usize>) -> bool {
        &&& self.layout.wf()
        &&& self.apps.wf()
        &&& self.processors@.len() == MAX_CPU_NUM
        &&& self.frame_allocator.wf()
        &&& self.pid_allocator.wf()
        &&& self.kernel_space.inv()
        &&& self.kernel_space.has_trampoline()
        &&& forall|pid: usize| #[trigger]
            self.procs().contains_key(pid) ==> self.procs()[pid].wf() && self.procs()[pid].pid.0 == pid
                && (self.procs()[pid].inner.task_status != TaskStatus::Zombie
                ==> self.procs()[pid].inner.memory_set.accounted(&self.frame_allocator))
        &&& frames_inv(
            owned_map(self.procs()),
            self.kernel_space.table().owned(),
            self.frame_allocator.allocated(),
        )
        &&& forall|pid: usize|
            self.pid_allocator.is_allocated(pid) <==> #[trigger] self.procs().contains_key(pid)
        &&& stacks_inv(self.procs().dom(), &self.kernel_space)
        &&& family_inv(self.procs())
        &&& sched_inv_but(self.procs(), self.task_manager@, self.processors@, off)
    }

    /// The kernel at boot: its own address space built for `layout`, all
    /// frames between the end of the image and the end of memory free but
    /// those of the kernel's page table, no process, an empty ready queue,
    /// and no hart running anything. Fails exactly when the memory behind
    /// the image has fewer frames than the kernel's page table takes.
    pub fn new(layout: KernelLayout, entries: KernelEntries, apps: AppRegistry, lazy_heap: bool) -> (r:
        Result<Kernel, KernelError>)
        requires
            layout.wf(),
            apps.wf(),
        ensures
            r.is_ok() <==> MEMORY_END / 4096 - (layout.ekernel + 4095) / 4096 >= kernel_demand(
                layout,
            ),
            r matches Ok(kernel) ==> {
                &&& kernel.wf()
                &&& kernel.layout == layout
                &&& kernel.entries == entries
                &&& kernel.lazy_heap == lazy_heap
                &&& kernel.apps == apps
                &&& kernel.frame_allocator.free_count() == MEMORY_END / 4096 - (layout.ekernel
                    + 4095) / 4096 - kernel_demand(layout)
                &&& kernel.kernel_space.lacks() == lacks_after_plan(
                    trampoline_lacks(),
                    kernel_plan(layout),
                )
                &&& kernel.procs() == Map::<usize, TaskControlBlock>::empty()
                &&& kernel.task_manager@ == Seq::<usize>::empty()
                &&& kernel.pid_allocator.next() == Some(0usize)
                &&& forall|h: int|
                    0 <= h < MAX_CPU_NUM ==> (#[trigger] kernel.processors@[h]).current.is_none()
            },
            r matches Err(e) ==> e == KernelError::OutOfFrames,
    {
        let (frame_allocator, kernel_space) = match crate::mm::init(&layout) {
            Ok(made) => made,
            Err(e) => {
                return Err(KernelError::from_mem(e));
            },
        };
        let kernel = Kernel {
            layout,
            entries,
            lazy_heap,
            frame_allocator,
            kernel_space,
            pid_allocator: PidAllocator::new(),
            tasks: BTreeMap::new(),
            task_manager: TaskManager::new(),
            processors: Processors::new(),
            apps,
        };
        proof {
            let owners = owned_map(kernel.procs());
            let ks = kernel.kernel_space.table().owned();
            let al = kernel.frame_allocator.allocated();
            assert(foreign(kernel.kernel_space.table(), &kernel.frame_allocator) =~= Set::<u64>::empty());
            assert forall|p: u64| ks.contains(p) implies al.contains(p) by {
                assert(kernel.frame_allocator.is_allocated(p));
            }
            assert forall|p: u64| #[trigger] al.contains(p) implies ks.contains(p) || some_owner(
                owners,
                p,
            ) by {
                if !ks.contains(p) {
                    assert(foreign(kernel.kernel_space.table(), &kernel.frame_allocator).contains(p));
                }
            }
            assert forall|pid: usize| pid < PID_LIMIT implies !kernel.kernel_space@.contains_key(
                kernel_stack_vpn(pid),
            ) && !kernel.kernel_space@.contains_key((kernel_stack_vpn(pid) + 1) as u64) by {
                assert(kernel_stack_vpn(pid) >= MEMORY_END / 4096);
                assert(kernel_stack_vpn(pid) + 1 != trampoline_vpn());
            }
        }
        Ok(kernel)
    }
}


impl Kernel {
    /// Tests memory management on the kernel before it has any process:
    /// the frame allocator, which must have five frames to spare, then the
    /// kernel's address space. Returns whether the sections of the kernel
    /// are protected as they should be. The kernel is well formed
    /// afterwards, with the same pages mapped and no process as before.
    pub fn test_memory(&mut self) -> (r: bool)
        requires
            old(self).wf(),
            old(self).procs() == Map::<usize, TaskControlBlock>::empty(),
            old(self).frame_allocator.free_count() >= 5,
        ensures
            r == sections_protected(&old(self).kernel_space, old(self).layout),
            final(self).wf(),
            final(self).layout == old(self).layout,
            final(self).entries == old(self).entries,
            final(self).lazy_heap == old(self).lazy_heap,
            final(self).apps == old(self).apps,
            final(self).pid_allocator == old(self).pid_allocator,
            final(self).procs() == old(self).procs(),
            final(self).task_manager@ == old(self).task_manager@,
            final(self).processors@ == old(self).processors@,
            final(self).kernel_space@ == old(self).kernel_space@,
            final(self).frame_allocator.allocated().difference(
                final(self).kernel_space.table().owned(),
            ) == Set::<u64>::empty(),
            final(self).frame_allocator.free_count() == old(self).frame_allocator.free_count()
                - tables_needed(
                old(self).kernel_space.lacks(),
                trap_context_vpn() - 1,
                trap_context_vpn() as int,
            ),
    {
        let ghost k0 = *self;
        proof {
            assert(!k0.procs().dom().contains(0usize));
            assert(kernel_stack_vpn(0usize) + 1 == trap_context_vpn() - 1);
            let owners = owned_map(k0.procs());
            assert forall|p: u64|
                foreign(k0.kernel_space.table(), &k0.frame_allocator).contains(p) implies false by {
                assert(k0.frame_allocator.allocated().contains(p));
                assert(some_owner(owners, p));
            }
            assert(foreign(k0.kernel_space.table(), &k0.frame_allocator) =~= Set::<u64>::empty());
        }
        let layout = self.layout;
        let passed = match crate::mm::test(&mut self.kernel_space, &mut self.frame_allocator, &layout) {
            Ok(passed) => passed,
            Err(_) => false,
        };
        proof {
            let ks1 = self.kernel_space.table().owned();
            let al1 = self.frame_allocator.allocated();
            assert(ks1.subset_of(al1)) by {
                assert forall|p: u64| ks1.contains(p) implies al1.contains(p) by {
                    assert(self.frame_allocator.is_allocated(p));
                }
            }
            lemma_frames_kernel_changed(
                owned_map(k0.procs()),
                k0.kernel_space.table().owned(),
                k0.frame_allocator.allocated(),
                ks1,
                al1,
            );
        }
        passed
    }

    /// Whether `other` has the same processes, ready queue, allocators and
    /// address spaces as `self`.
    pub open spec fn same_but_harts(&self, other: &Kernel) -> bool {
        &&& other.layout == self.layout
        &&& other.entries == self.entries
        &&& other.lazy_heap == self.lazy_heap
        &&& other.frame_allocator == self.frame_allocator
        &&& other.kernel_space == self.kernel_space
        &&& other.pid_allocator == self.pid_allocator
        &&& other.tasks@ == self.tasks@
        &&& other.task_manager@ == self.task_manager@
        &&& other.apps == self.apps
    }

    /// Switching the interrupts of a hart does not disturb anything else.
    pub proof fn lemma_interrupts_changed(k0: &Kernel, k1: &Kernel, hart: int)
        requires
            k0.sound(),
            k0.same_but_harts(k1),
            0 <= hart < k0.processors@.len(),
            k1.processors@.len() == k0.processors@.len(),
            k1.processors@[hart].current == k0.processors@[hart].current,
            forall|h: int|
                0 <= h < k0.processors@.len() && h != hart ==> k1.processors@[h]
                    == k0.processors@[h],
        ensures
            k1.sound(),
    {
        let c0 = k0.processors@;
        let c1 = k1.processors@;
        assert forall|h: int| 0 <= h < c1.len() implies ((#[trigger] c1[h]).current matches Some(pid)
            ==> k1.procs().contains_key(pid) && k1.procs()[pid].inner.task_status
            == TaskStatus::Running) by {
            assert(c1[h].current == c0[h].current);
        }
        assert forall|h1: int, h2: int|
            0 <= h1 < c1.len() && 0 <= h2 < c1.len() && h1 != h2 && (
            #[trigger] c1[h1]).current.is_some() implies c1[h1].current != (#[trigger] c1[h2]).current by {
            assert(c1[h1].current == c0[h1].current);
            assert(c1[h2].current == c0[h2].current);
        }
    }

    /// Takes hart `hart` out of the kernel for a change of its state.
    pub fn take_cpu(&mut self, hart: usize) -> (cpu: Processor)
        requires
            hart < old(self).processors@.len(),
        ensures
            cpu == old(self).processors@[hart as int],
            old(self).same_but_harts(final(self)),
            final(self).processors@.len() == old(self).processors@.len(),
            forall|h: int|
                0 <= h < old(self).processors@.len() && h != hart ==> final(self).processors@[h]
                    == old(self).processors@[h],
    {
        self.processors.take(hart)
    }

    /// Puts hart `hart` back in its new state `cpu`.
    pub fn put_cpu(&mut self, hart: usize, cpu: Processor)
        requires
            hart < old(self).processors@.len(),
        ensures
            old(self).same_but_harts(final(self)),
            final(self).processors@ == old(self).processors@.update(hart as int, cpu),
    {
        self.processors.set(hart, cpu);
    }
}


impl Kernel {
    /// Whether `other` differs from `self` in the processes and the frame allocator at most.
    pub open spec fn same_but_tasks(&self, other: &Kernel) -> bool {
        &&& other.layout == self.layout
        &&& other.entries == self.entries
        &&& other.lazy_heap == self.lazy_heap
        &&& other.kernel_space == self.kernel_space
        &&& other.pid_allocator == self.pid_allocator
        &&& other.task_manager@ == self.task_manager@
        &&& other.processors@ == self.processors@
        &&& other.apps == self.apps
    }

    /// A process that has not exited changes its address space, its trap
    /// context or its break, trading frames with the allocator only: the
    /// kernel stays sound.
    pub proof fn lemma_task_updated(k0: &Kernel, k1: &Kernel, pid: usize)
        requires
            k0.sound(),
            k0.procs().contains_key(pid),
            k0.procs()[pid].inner.task_status != TaskStatus::Zombie,
            k0.same_but_tasks(k1),
            k1.procs().dom() == k0.procs().dom(),
            forall|q: usize|
                q != pid && k0.procs().contains_key(q) ==> #[trigger] k1.procs()[q] == k0.procs()[q],
            k1.procs()[pid].wf(),
            k1.procs()[pid].pid == k0.procs()[pid].pid,
            k1.procs()[pid].inner.task_status == k0.procs()[pid].inner.task_status,
            k1.procs()[pid].inner.parent == k0.procs()[pid].inner.parent,
            k1.procs()[pid].inner.children == k0.procs()[pid].inner.children,
            k1.frame_allocator.wf(),
            k1.procs()[pid].inner.memory_set.accounted(&k1.frame_allocator),
            foreign(k1.procs()[pid].inner.memory_set.table(), &k1.frame_allocator) == foreign(
                k0.procs()[pid].inner.memory_set.table(),
                &k0.frame_allocator,
            ),
        ensures
            k1.sound(),
    {
        let t0 = k0.procs();
        let t1 = k1.procs();
        let o0 = owned_map(t0);
        let o1 = owned_map(t1);
        let a0 = k0.frame_allocator.allocated();
        let a1 = k1.frame_allocator.allocated();
        let ks = k0.kernel_space.table().owned();
        let s1 = t1[pid].inner.memory_set.table().owned();
        assert(s1.subset_of(a1)) by {
            assert forall|p: u64| s1.contains(p) implies a1.contains(p) by {
                assert(k1.frame_allocator.is_allocated(p));
            }
        }
        assert(o0.contains_key(pid));
        lemma_frames_task_changed(o0, ks, a0, pid, s1, a1);
        assert(o1 =~= o0.insert(pid, s1)) by {
            assert forall|q: usize| o1.contains_key(q) implies o1[q] == o0.insert(pid, s1)[q] by {
                if q != pid {
                    assert(t1[q] == t0[q]);
                }
            }
        }
        assert forall|x: usize| #[trigger] t1.contains_key(x) implies t1[x].wf() && t1[x].pid.0 == x && (
        t1[x].inner.task_status != TaskStatus::Zombie ==> t1[x].inner.memory_set.accounted(
            &k1.frame_allocator,
        )) by {
            assert(t0.contains_key(x));
            if x != pid {
                assert(t1[x] == t0[x]);
                assert forall|p: u64| #[trigger]
                    t1[x].inner.memory_set.table().owned().contains(p) implies k1.frame_allocator.is_allocated(
                    p,
                ) by {
                    assert(o1.contains_key(x) && o1[x].contains(p));
                    assert(a1.contains(p));
                }
            }
        }
        Self::lemma_same_family(k0, k1, pid);
    }

    /// A process changes without its status, parent or children changing:
    /// families and scheduling are as before.
    pub proof fn lemma_same_family(k0: &Kernel, k1: &Kernel, pid: usize)
        requires
            family_inv(k0.procs()),
            sched_inv(k0.procs(), k0.task_manager@, k0.processors@),
            stacks_inv(k0.procs().dom(), &k0.kernel_space),
            k0.procs().contains_key(pid),
            k1.task_manager@ == k0.task_manager@,
            k1.processors@ == k0.processors@,
            k1.kernel_space == k0.kernel_space,
            k1.procs().dom() == k0.procs().dom(),
            forall|q: usize|
                q != pid && k0.procs().contains_key(q) ==> #[trigger] k1.procs()[q] == k0.procs()[q],
            k1.procs()[pid].inner.task_status == k0.procs()[pid].inner.task_status,
            k1.procs()[pid].inner.parent == k0.procs()[pid].inner.parent,
            k1.procs()[pid].inner.children == k0.procs()[pid].inner.children,
        ensures
            family_inv(k1.procs()),
            sched_inv(k1.procs(), k1.task_manager@, k1.processors@),
            stacks_inv(k1.procs().dom(), &k1.kernel_space),
    {
        let t0 = k0.procs();
        let t1 = k1.procs();
        assert forall|x: usize|
            t0.contains_key(x) implies t1[x].inner.task_status == t0[x].inner.task_status
            && t1[x].inner.parent == t0[x].inner.parent && t1[x].inner.children
            == t0[x].inner.children by {
            if x != pid {
                assert(t1[x] == t0[x]);
            }
        }
        assert forall|x: usize| #[trigger] t1.contains_key(x) implies t1[x].inner.children@.no_duplicates() by {
            assert(t0.contains_key(x));
        }
        assert forall|x: usize, i: int|
            t1.contains_key(x) && 0 <= i < t1[x].inner.children@.len() implies {
            let c = #[trigger] t1[x].inner.children@[i];
            &&& t1.contains_key(c)
            &&& t1[c].inner.parent == Some(x)
        } by {
            assert(t0.contains_key(x));
            let c = t0[x].inner.children@[i];
            assert(t0.contains_key(c));
        }
        assert forall|x: usize| #[trigger] t1.contains_key(x) implies (
        t1[x].inner.parent matches Some(q) ==> t1.contains_key(q) && q != x
            && t1[q].inner.children@.contains(x)) by {
            assert(t0.contains_key(x));
        }
        assert forall|x: usize| #[trigger] t1.contains_key(x) implies {
            &&& t1.contains_key(INITPROC_PID)
            &&& t1[INITPROC_PID].inner.task_status != TaskStatus::Zombie
            &&& (x == INITPROC_PID <==> t1[x].inner.parent.is_none())
        } by {
            assert(t0.contains_key(x));
        }
        let q = k0.task_manager@;
        assert forall|i: int| 0 <= i < q.len() implies t1.contains_key(#[trigger] q[i])
            && t1[q[i]].inner.task_status == TaskStatus::Ready by {
            assert(t0.contains_key(q[i]));
        }
    }
}


impl Kernel {
    /// A new process `c` appears, ready and at the tail of the ready queue,
    /// with its kernel stack mapped and with frames of its own; if it has a
    /// parent, the parent lists it as its last child. The kernel stays well
    /// formed.
    pub proof fn lemma_spawned(
        k0: &Kernel,
        k1: &Kernel,
        mid: &StackFrameAllocator,
        parent: Option<usize>,
        c: usize,
    )
        requires
            k0.wf(),
            k1.layout == k0.layout,
            k1.entries == k0.entries,
            k1.lazy_heap == k0.lazy_heap,
            k1.apps == k0.apps,
            k1.processors@ == k0.processors@,
            k1.task_manager@ == k0.task_manager@.push(c),
            // the identifier
            c < PID_LIMIT,
            !k0.pid_allocator.is_allocated(c),
            k1.pid_allocator.wf(),
            forall|pid: usize|
                k1.pid_allocator.is_allocated(pid) <==> (k0.pid_allocator.is_allocated(pid) || pid
                    == c),
            // the kernel stack
            mid.wf(),
            k1.kernel_space.inv(),
            k1.kernel_space.accounted(mid),
            foreign(k1.kernel_space.table(), mid) == foreign(
                k0.kernel_space.table(),
                &k0.frame_allocator,
            ),
            k1.kernel_space.areas().contains_key(kernel_stack_vpn(c)),
            k1.kernel_space.areas()[kernel_stack_vpn(c)].end() == kernel_stack_vpn(c) + 2,
            MemorySet::pushed(
                &k0.kernel_space,
                &k1.kernel_space,
                k1.kernel_space.areas()[kernel_stack_vpn(c)],
                None,
            ),
            // the process
            k1.frame_allocator.wf(),
            k1.procs().contains_key(c),
            k1.procs()[c].wf(),
            k1.procs()[c].pid.0 == c,
            k1.procs()[c].inner.task_status == TaskStatus::Ready,
            k1.procs()[c].inner.parent == parent,
            k1.procs()[c].inner.children@.len() == 0,
            k1.procs()[c].inner.memory_set.accounted(&k1.frame_allocator),
            foreign(k1.procs()[c].inner.memory_set.table(), &k1.frame_allocator)
                == mid.allocated(),
            // the others
            k1.procs().dom() == k0.procs().dom().insert(c),
            match parent {
                Some(p) => {
                    &&& k0.procs().contains_key(p)
                    &&& k0.procs()[p].inner.task_status != TaskStatus::Zombie
                    &&& k1.procs()[p].wf()
                    &&& k1.procs()[p].pid == k0.procs()[p].pid
                    &&& k1.procs()[p].inner.task_status == k0.procs()[p].inner.task_status
                    &&& k1.procs()[p].inner.parent == k0.procs()[p].inner.parent
                    &&& k1.procs()[p].inner.memory_set == k0.procs()[p].inner.memory_set
                    &&& k1.procs()[p].inner.children@ == k0.procs()[p].inner.children@.push(c)
                },
                None => c == INITPROC_PID && k0.procs() == Map::<usize, TaskControlBlock>::empty(),
            },
            forall|q: usize|
                k0.procs().contains_key(q) && Some(q) != parent ==> #[trigger] k1.procs()[q]
                    == k0.procs()[q],
        ensures
            k1.wf(),
    {
        let t0 = k0.procs();
        let t1 = k1.procs();
        let o0 = owned_map(t0);
        let o1 = owned_map(t1);
        let ks0 = k0.kernel_space.table().owned();
        let ks1 = k1.kernel_space.table().owned();
        let a0 = k0.frame_allocator.allocated();
        let am = mid.allocated();
        let a1 = k1.frame_allocator.allocated();
        let child = t1[c].inner.memory_set.table().owned();
        assert(!t0.contains_key(c));
        // frames
        assert(ks1.subset_of(am)) by {
            assert forall|p: u64| ks1.contains(p) implies am.contains(p) by {
                assert(mid.is_allocated(p));
            }
        }
        lemma_frames_kernel_changed(o0, ks0, a0, ks1, am);
        assert(child.subset_of(a1)) by {
            assert forall|p: u64| child.contains(p) implies a1.contains(p) by {
                assert(k1.frame_allocator.is_allocated(p));
            }
        }
        lemma_frames_task_added(o0, ks1, am, c, child, a1);
        assert(o1 =~= o0.insert(c, child)) by {
            assert forall|q: usize| o1.contains_key(q) implies o1[q] == o0.insert(c, child)[q] by {
                if q != c {
                    assert(t0.contains_key(q));
                    if Some(q) != parent {
                        assert(t1[q] == t0[q]);
                    }
                }
            }
        }
        assert(k1.kernel_space.has_trampoline()) by {
            let area = k1.kernel_space.areas()[kernel_stack_vpn(c)];
            assert(!area.contains(trampoline_vpn()));
            assert(k0.kernel_space@.contains_key(trampoline_vpn()));
        }
        assert forall|x: usize| #[trigger] t1.contains_key(x) implies t1[x].wf() && t1[x].pid.0 == x && (
        t1[x].inner.task_status != TaskStatus::Zombie ==> t1[x].inner.memory_set.accounted(
            &k1.frame_allocator,
        )) by {
            if x != c {
                assert(t0.contains_key(x));
                if Some(x) != parent {
                    assert(t1[x] == t0[x]);
                }
                assert forall|p: u64| #[trigger]
                    t1[x].inner.memory_set.table().owned().contains(p) implies k1.frame_allocator.is_allocated(
                    p,
                ) by {
                    assert(o1.contains_key(x) && o1[x].contains(p));
                    assert(a1.contains(p));
                }
            }
        }
        // kernel stacks
        assert(stacks_inv(t1.dom(), &k1.kernel_space)) by {
            let area = k1.kernel_space.areas()[kernel_stack_vpn(c)];
            assert(area.start() == kernel_stack_vpn(c));
            assert forall|pid: usize| pid < PID_LIMIT implies if #[trigger] t1.dom().contains(pid) {
                &&& k1.kernel_space.areas().contains_key(kernel_stack_vpn(pid))
                &&& k1.kernel_space.areas()[kernel_stack_vpn(pid)].end() == kernel_stack_vpn(pid)
                    + 2
            } else {
                &&& !k1.kernel_space@.contains_key(kernel_stack_vpn(pid))
                &&& !k1.kernel_space@.contains_key((kernel_stack_vpn(pid) + 1) as u64)
            } by {
                if pid != c {
                    assert(t0.dom().contains(pid) == t1.dom().contains(pid));
                    assert(kernel_stack_vpn(pid) != kernel_stack_vpn(c));
                    assert(!area.contains(kernel_stack_vpn(pid)));
                    assert(!area.contains((kernel_stack_vpn(pid) + 1) as u64));
                    if t0.dom().contains(pid) {
                        assert(k0.kernel_space.areas().contains_key(kernel_stack_vpn(pid)));
                    }
                }
            }
        }
        // families
        assert(family_inv(t1)) by {
            assert forall|x: usize| #[trigger] t1.contains_key(x) implies t1[x].inner.children@.no_duplicates() by {
                if x != c {
                    assert(t0.contains_key(x));
                    if Some(x) == parent {
                        let old_c = t0[x].inner.children@;
                        assert(!old_c.contains(c)) by {
                            if old_c.contains(c) {
                                let i = choose|i: int| 0 <= i < old_c.len() && old_c[i] == c;
                                assert(t0.contains_key(t0[x].inner.children@[i]));
                            }
                        }
                        assert forall|i: int, j: int|
                            0 <= i < old_c.push(c).len() && 0 <= j < old_c.push(c).len() && i
                                != j implies old_c.push(c)[i] != old_c.push(c)[j] by {
                            if i < old_c.len() {
                                assert(old_c.contains(old_c.push(c)[i]));
                            }
                            if j < old_c.len() {
                                assert(old_c.contains(old_c.push(c)[j]));
                            }
                        }
                    } else {
                        assert(t1[x] == t0[x]);
                    }
                }
            }
            assert forall|x: usize, i: int|
                t1.contains_key(x) && 0 <= i < t1[x].inner.children@.len() implies {
                let y = #[trigger] t1[x].inner.children@[i];
                &&& t1.contains_key(y)
                &&& t1[y].inner.parent == Some(x)
            } by {
                assert(x != c);
                assert(t0.contains_key(x));
                if Some(x) == parent && i == t0[x].inner.children@.len() {
                } else {
                    if Some(x) != parent {
                        assert(t1[x] == t0[x]);
                    }
                    let y = t0[x].inner.children@[i];
                    assert(t0.contains_key(y));
                    assert(t0[y].inner.parent == Some(x));
                    if Some(y) != parent {
                        assert(t1[y] == t0[y]);
                    }
                }
            }
            assert forall|x: usize| #[trigger] t1.contains_key(x) implies (
            t1[x].inner.parent matches Some(q) ==> t1.contains_key(q) && q != x
                && t1[q].inner.children@.contains(x)) by {
                if x == c {
                    if let Some(p) = parent {
                        assert(t1[p].inner.children@[t0[p].inner.children@.len() as int] == c);
                    }
                } else {
                    assert(t0.contains_key(x));
                    if Some(x) != parent {
                        assert(t1[x] == t0[x]);
                    }
                    if let Some(q) = t0[x].inner.parent {
                        assert(t0[q].inner.children@.contains(x));
                        let i = choose|i: int|
                            0 <= i < t0[q].inner.children@.len() && t0[q].inner.children@[i] == x;
                        if Some(q) == parent {
                            assert(t1[q].inner.children@[i] == x);
                        } else {
                            assert(t1[q] == t0[q]);
                        }
                    }
                }
            }
            assert forall|x: usize| #[trigger] t1.contains_key(x) implies {
                &&& t1.contains_key(INITPROC_PID)
                &&& t1[INITPROC_PID].inner.task_status != TaskStatus::Zombie
                &&& (x == INITPROC_PID <==> t1[x].inner.parent.is_none())
            } by {
                if let Some(p) = parent {
                    assert(t0.contains_key(p));
                    assert(t0.contains_key(INITPROC_PID));
                    if Some(INITPROC_PID) != parent {
                        assert(t1[INITPROC_PID] == t0[INITPROC_PID]);
                    }
                    if x != c {
                        assert(t0.contains_key(x));
                        if Some(x) != parent {
                            assert(t1[x] == t0[x]);
                        }
                    }
                }
            }
        }
        // scheduling
        assert(sched_inv(t1, k1.task_manager@, k1.processors@)) by {
            let q0 = k0.task_manager@;
            let q1 = k1.task_manager@;
            let cpus = k0.processors@;
            assert(!q0.contains(c)) by {
                if q0.contains(c) {
                    let i = choose|i: int| 0 <= i < q0.len() && q0[i] == c;
                    assert(t0.contains_key(q0[i]));
                }
            }
            assert forall|i: int, j: int| 0 <= i < q1.len() && 0 <= j < q1.len() && i != j implies q1[i]
                != q1[j] by {
                if i < q0.len() {
                    assert(q0.contains(q1[i]));
                }
                if j < q0.len() {
                    assert(q0.contains(q1[j]));
                }
            }
            assert forall|i: int| 0 <= i < q1.len() implies t1.contains_key(#[trigger] q1[i])
                && t1[q1[i]].inner.task_status == TaskStatus::Ready by {
                if i < q0.len() {
                    assert(q1[i] == q0[i]);
                    assert(t0.contains_key(q0[i]));
                    if Some(q0[i]) != parent {
                        assert(t1[q0[i]] == t0[q0[i]]);
                    }
                }
            }
            assert forall|h: int| 0 <= h < cpus.len() implies ((#[trigger] cpus[h]).current matches Some(
                x,
            ) ==> t1.contains_key(x) && t1[x].inner.task_status == TaskStatus::Running) by {
                if let Some(x) = cpus[h].current {
                    assert(t0.contains_key(x));
                    if Some(x) != parent {
                        assert(t1[x] == t0[x]);
                    }
                }
            }
            assert forall|x: usize| #[trigger] t1.contains_key(x) implies match t1[x].inner.task_status {
                TaskStatus::Ready => q1.contains(x),
                TaskStatus::Running => on_hart(k1.processors@, x),
                _ => true,
            } by {
                if x == c {
                    assert(q1[q0.len() as int] == c);
                } else {
                    assert(t0.contains_key(x));
                    if Some(x) != parent {
                        assert(t1[x] == t0[x]);
                    }
                    if t0[x].inner.task_status == TaskStatus::Ready {
                        let i = choose|i: int| 0 <= i < q0.len() && q0[i] == x;
                        assert(q1[i] == x);
                    }
                }
            }
        }
    }
}


impl Kernel {
    /// Every frame that is handed out has exactly one owner: the kernel's
    /// address space or one process.
    pub proof fn lemma_one_owner(&self, p: u64)
        requires
            self.wf(),
            self.frame_allocator.is_allocated(p),
        ensures
            self.kernel_space.owned().contains(p) != some_owner(owned_map(self.procs()), p),
            forall|pid1: usize, pid2: usize|
                self.procs().contains_key(pid1) && self.procs().contains_key(pid2)
                    && self.procs()[pid1].inner.memory_set.owned().contains(p)
                    && self.procs()[pid2].inner.memory_set.owned().contains(p) ==> pid1 == pid2,
    {
        let owners = owned_map(self.procs());
        assert(self.frame_allocator.allocated().contains(p));
        if some_owner(owners, p) {
            let pid = choose|pid: usize| owners.contains_key(pid) && #[trigger] owners[pid].contains(p);
            assert(!self.kernel_space.table().owned().contains(p));
        }
        assert forall|pid1: usize, pid2: usize|
            self.procs().contains_key(pid1) && self.procs().contains_key(pid2)
                && self.procs()[pid1].inner.memory_set.owned().contains(p)
                && self.procs()[pid2].inner.memory_set.owned().contains(p) implies pid1 == pid2 by {
            assert(owners.contains_key(pid1) && owners[pid1].contains(p));
            assert(owners.contains_key(pid2) && owners[pid2].contains(p));
        }
    }

    /// Every frame that the kernel's address space or a process owns is
    /// handed out, so that giving it back is giving back a frame that was
    /// taken and not yet given back.
    pub proof fn lemma_owned_is_allocated(&self, pid: usize, p: u64)
        requires
            self.wf(),
            self.procs().contains_key(pid),
            self.procs()[pid].inner.memory_set.owned().contains(p),
        ensures
            self.frame_allocator.is_allocated(p),
    {
        let owners = owned_map(self.procs());
        assert(owners.contains_key(pid) && owners[pid].contains(p));
        assert(self.frame_allocator.allocated().contains(p));
    }

    /// A zombie has no children and owns no frame.
    pub proof fn lemma_zombie_is_bare(&self, pid: usize)
        requires
            self.wf(),
            self.procs().contains_key(pid),
            self.procs()[pid].inner.task_status == TaskStatus::Zombie,
        ensures
            self.procs()[pid].inner.children@.len() == 0,
            self.procs()[pid].inner.memory_set.owned() == Set::<u64>::empty(),
            forall|i: int| 0 <= i < self.task_manager@.len() ==> self.task_manager@[i] != pid,
            forall|h: int|
                0 <= h < self.processors@.len() ==> self.processors@[h].current != Some(pid),
    {
        assert(self.procs()[pid].wf());
        assert forall|i: int| 0 <= i < self.task_manager@.len() implies self.task_manager@[i]
            != pid by {
            assert(self.procs().contains_key(self.task_manager@[i]));
        }
        assert forall|h: int| 0 <= h < self.processors@.len() implies self.processors@[h].current
            != Some(pid) by {
            assert(self.processors@[h].current matches Some(x) ==> self.procs()[x].inner.task_status
                == TaskStatus::Running);
        }
    }

    /// A process is ready exactly when it waits in the ready queue, and
    /// running exactly when a hart runs it.
    pub proof fn lemma_process_is_placed(&self, pid: usize)
        requires
            self.wf(),
            self.procs().contains_key(pid),
        ensures
            self.procs()[pid].inner.task_status == TaskStatus::Ready
                <==> self.task_manager@.contains(pid),
            self.procs()[pid].inner.task_status == TaskStatus::Running <==> on_hart(
                self.processors@,
                pid,
            ),
    {
        let queue = self.task_manager@;
        let cpus = self.processors@;
        if queue.contains(pid) {
            let i = choose|i: int| 0 <= i < queue.len() && queue[i] == pid;
            assert(self.procs()[queue[i]].inner.task_status == TaskStatus::Ready);
        }
        if on_hart(cpus, pid) {
            let h = choose|h: int| 0 <= h < cpus.len() && (#[trigger] cpus[h]).current == Some(pid);
            assert(self.procs()[pid].inner.task_status == TaskStatus::Running);
        }
    }

    /// Between two steps of the kernel no hart has interrupts switched off
    /// by count.
    pub proof fn lemma_nothing_held(&self, hart: int)
        requires
            self.wf(),
            0 <= hart < MAX_CPU_NUM,
        ensures
            self.processors@[hart].noff == 0,
    {
    }
}

} // verus!
