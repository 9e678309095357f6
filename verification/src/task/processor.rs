//! The state of each hart: the process it runs, the context of its
//! scheduler and the nesting of its interrupt switches.

use vstd::prelude::*;
use crate::common::{intr_on, pop_off, push_off};
use crate::config::MAX_CPU_NUM;
use crate::kernel::{nothing_held, Kernel};
use crate::task::context::TaskContext;
use crate::task::manager::{add_task, fetch_task};
use crate::task::task::TaskStatus;
use crate::trap::context::TrapContext;

verus! {

/// One hart.
pub struct Processor {
    /// The process the hart runs, if any.
    pub current: Option<usize>,
    /// The context of the hart's scheduler loop.
    pub scheduler_cx: TaskContext,
    /// How many times interrupts were switched off without being switched on again.
    pub noff: i64,
    /// Whether interrupts were enabled before they were first switched off.
    pub intena: bool,
    /// Whether the hart takes interrupts at present.
    pub interrupts: bool,
}

impl Processor {
    /// The process the hart runs, if any.
    pub open spec fn running(&self) -> Option<usize> {
        self.current
    }

    /// The context of the hart's scheduler loop.
    pub open spec fn scheduler_context(&self) -> TaskContext {
        self.scheduler_cx
    }

    /// A hart that runs no process, with an empty scheduler context, no
    /// interrupt switch outstanding and interrupts off.
    pub fn new() -> (r: Self)
        ensures
            r.running().is_none(),
            r.scheduler_context().ra == 0,
            r.scheduler_context().sp == 0,
            r.scheduler_context().regs@ == Seq::new(12, |i: int| 0u64),
            r.noff == 0,
            !r.intena,
            !r.interrupts,
    {
        Processor {
            current: None,
            scheduler_cx: TaskContext::zero_init(),
            noff: 0,
            intena: false,
            interrupts: false,
        }
    }

    /// Takes the running process off the hart.
    pub fn take_current(&mut self) -> (r: Option<usize>)
        ensures
            r == old(self).running(),
            final(self).running().is_none(),
            final(self).noff == old(self).noff,
            final(self).intena == old(self).intena,
            final(self).interrupts == old(self).interrupts,
            final(self).scheduler_context() == old(self).scheduler_context(),
    {
        self.current.take()
    }

    /// The process the hart runs, if any.
    pub fn current(&self) -> (r: Option<usize>)
        ensures
            r == self.running(),
    {
        self.current
    }

    /// Puts process `task` on the hart.
    pub fn set_current(&mut self, task: Option<usize>)
        ensures
            final(self).running() == task,
            final(self).noff == old(self).noff,
            final(self).intena == old(self).intena,
            final(self).interrupts == old(self).interrupts,
            final(self).scheduler_context() == old(self).scheduler_context(),
    {
        self.current = task;
    }
}

/// All harts of the machine, by number.
pub struct Processors {
    processors: Vec<Processor>,
}

impl View for Processors {
    type V = Seq<Processor>;

    closed spec fn view(&self) -> Seq<Processor> {
        self.processors@
    }
}

impl Processors {
    /// `MAX_CPU_NUM` harts, none of which runs a process.
    pub fn new() -> (r: Self)
        ensures
            r@.len() == MAX_CPU_NUM,
            forall|i: int|
                0 <= i < MAX_CPU_NUM ==> (#[trigger] r@[i]).running().is_none() && r@[i].noff == 0
                    && !r@[i].intena && !r@[i].interrupts,
    {
        let mut processors: Vec<Processor> = Vec::new();
        let mut i: usize = 0;
        while i < MAX_CPU_NUM
            invariant
                i <= MAX_CPU_NUM,
                processors@.len() == i,
                forall|j: int|
                    0 <= j < i ==> (#[trigger] processors@[j]).running().is_none()
                        && processors@[j].noff == 0 && !processors@[j].intena
                        && !processors@[j].interrupts,
            decreases MAX_CPU_NUM - i,
        {
            processors.push(Processor::new());
            i += 1;
        }
        Processors { processors }
    }

    /// Hart `index`.
    pub fn index(&self, index: usize) -> (r: &Processor)
        requires
            index < self@.len(),
        ensures
            *r == self@[index as int],
    {
        &self.processors[index]
    }

    /// Replaces hart `index` by `cpu`.
    pub fn set(&mut self, index: usize, cpu: Processor)
        requires
            index < old(self)@.len(),
        ensures
            final(self)@ == old(self)@.update(index as int, cpu),
    {
        self.processors[index] = cpu;
    }

    /// Takes hart `index` out, leaving a hart that runs nothing in its place.
    pub fn take(&mut self, index: usize) -> (r: Processor)
        requires
            index < old(self)@.len(),
        ensures
            r == old(self)@[index as int],
            final(self)@.len() == old(self)@.len(),
            forall|i: int|
                0 <= i < old(self)@.len() && i != index ==> final(self)@[i] == old(self)@[i],
    {
        let mut cpu = Processor::new();
        std::mem::swap(&mut cpu, &mut self.processors[index]);
        cpu
    }
}


/// The state of hart `hart`.
pub fn current_cpu(kernel: &Kernel, hart: usize) -> (r: &Processor)
    requires
        hart < kernel.processors@.len(),
    ensures
        *r == kernel.processors@[hart as int],
{
    kernel.processors.index(hart)
}

/// Takes the running process off hart `hart`.
pub fn take_current_task(kernel: &mut Kernel, hart: usize) -> (r: Option<usize>)
    requires
        hart < old(kernel).processors@.len(),
    ensures
        r == old(kernel).processors@[hart as int].current,
        old(kernel).same_but_harts(final(kernel)),
        final(kernel).processors@ == old(kernel).processors@.update(
            hart as int,
            Processor { current: None, ..old(kernel).processors@[hart as int] },
        ),
{
    let mut cpu = kernel.take_cpu(hart);
    let r = cpu.take_current();
    kernel.put_cpu(hart, cpu);
    proof {
        assert(kernel.processors@ =~= old(kernel).processors@.update(
            hart as int,
            Processor { current: None, ..old(kernel).processors@[hart as int] },
        ));
    }
    r
}

/// The process that hart `hart` runs, if any. Interrupts are switched off
/// while the hart is looked at, so the hart afterwards remembers whether
/// they were on.
pub fn current_task(kernel: &mut Kernel, hart: usize) -> (r: Option<usize>)
    requires
        old(kernel).wf(),
        hart < MAX_CPU_NUM,
    ensures
        r == old(kernel).processors@[hart as int].current,
        final(kernel).wf(),
        old(kernel).same_but_harts(final(kernel)),
        final(kernel).processors@ == old(kernel).processors@.update(
            hart as int,
            Processor {
                intena: old(kernel).processors@[hart as int].interrupts,
                ..old(kernel).processors@[hart as int]
            },
        ),
{
    let mut cpu = kernel.take_cpu(hart);
    push_off(&mut cpu);
    let ret = cpu.current();
    pop_off(&mut cpu);
    kernel.put_cpu(hart, cpu);
    proof {
        assert(kernel.processors@ =~= old(kernel).processors@.update(
            hart as int,
            Processor {
                intena: old(kernel).processors@[hart as int].interrupts,
                ..old(kernel).processors@[hart as int]
            },
        ));
        Kernel::lemma_interrupts_changed(old(kernel), kernel, hart as int);
    }
    ret
}

/// The `satp` value of the process that hart `hart` runs, if it runs one.
pub fn current_user_token(kernel: &Kernel, hart: usize) -> (r: Option<u64>)
    requires
        kernel.sound(),
        hart < MAX_CPU_NUM,
    ensures
        r == (match kernel.processors@[hart as int].current {
            Some(pid) => Some(
                (0x8000_0000_0000_0000 + kernel.procs()[pid].inner.memory_set.table().root()) as u64,
            ),
            None => None::<u64>,
        }),
{
    match current_cpu(kernel, hart).current() {
        Some(pid) => {
            let task = kernel.tasks.get(&pid).unwrap();
            Some(task.inner.get_user_token())
        },
        None => None,
    }
}

/// The trap context of the process that hart `hart` runs, if it runs one.
pub fn current_trap_cx(kernel: &Kernel, hart: usize) -> (r: Option<&TrapContext>)
    requires
        kernel.sound(),
        hart < MAX_CPU_NUM,
    ensures
        match r {
            Some(cx) => kernel.processors@[hart as int].current matches Some(pid) && *cx
                == kernel.procs()[pid].inner.trap_cx,
            None => kernel.processors@[hart as int].current.is_none(),
        },
{
    match current_cpu(kernel, hart).current() {
        Some(pid) => {
            let task = kernel.tasks.get(&pid).unwrap();
            Some(task.inner.get_trap_cx())
        },
        None => None,
    }
}

/// Whether a hart that ran process `pid` should wait for an interrupt
/// before it looks at the ready queue again.
pub fn should_idle(pid: usize) -> (r: bool)
    ensures
        r == (pid < 2),
{
    pid < 2
}

/// What `schedule` does to the kernel: the process that hart `hart` ran,
/// if it ran one, is ready and at the tail of the ready queue, and the hart
/// runs nothing.
pub open spec fn scheduled(old: &Kernel, new: &Kernel, hart: int) -> bool {
    &&& new.layout == old.layout
    &&& new.entries == old.entries
    &&& new.lazy_heap == old.lazy_heap
    &&& new.frame_allocator == old.frame_allocator
    &&& new.kernel_space == old.kernel_space
    &&& new.pid_allocator == old.pid_allocator
    &&& new.apps == old.apps
    &&& new.processors@ == old.processors@.update(
        hart,
        Processor { current: None, ..old.processors@[hart] },
    )
    &&& match old.processors@[hart].current {
        Some(pid) => {
            &&& new.task_manager@ == old.task_manager@.push(pid)
            &&& new.procs().dom() == old.procs().dom()
            &&& new.procs()[pid].inner.task_status == TaskStatus::Ready
            &&& new.procs()[pid].pid == old.procs()[pid].pid
            &&& new.procs()[pid].kernel_stack == old.procs()[pid].kernel_stack
            &&& old.procs()[pid].inner.same_but_memory(
                &(crate::task::task::TaskControlBlockInner {
                    task_status: TaskStatus::Running,
                    ..new.procs()[pid].inner
                }),
            )
            &&& new.procs()[pid].inner.memory_set == old.procs()[pid].inner.memory_set
            &&& new.procs()[pid].inner.program_brk == old.procs()[pid].inner.program_brk
            &&& forall|q: usize|
                q != pid && old.procs().contains_key(q) ==> #[trigger] new.procs()[q]
                    == old.procs()[q]
        },
        None => new.task_manager@ == old.task_manager@ && new.procs() == old.procs(),
    }
}

/// Gives hart `hart` back to its scheduler: the process it runs, if any,
/// becomes ready and joins the tail of the ready queue. Interrupts must be
/// off and switched off exactly once.
pub fn schedule(kernel: &mut Kernel, hart: usize)
    requires
        old(kernel).sound(),
        hart < MAX_CPU_NUM,
        old(kernel).processors@[hart as int].noff == 1,
        !old(kernel).processors@[hart as int].interrupts,
    ensures
        final(kernel).sound(),
        scheduled(old(kernel), final(kernel), hart as int),
{
    let ghost k0 = *kernel;
    let intena = current_cpu(kernel, hart).intena;
    match take_current_task(kernel, hart) {
        Some(pid) => {
            let mut task = kernel.tasks.remove(&pid).unwrap();
            task.inner.task_status = TaskStatus::Ready;
            kernel.tasks.insert(pid, task);
            add_task(&mut kernel.task_manager, pid);
            proof {
                assert(k0.procs().contains_key(pid));
                assert(kernel.procs() =~= k0.procs().insert(
                    pid,
                    crate::task::task::TaskControlBlock {
                        inner: crate::task::task::TaskControlBlockInner {
                            task_status: TaskStatus::Ready,
                            ..k0.procs()[pid].inner
                        },
                        ..k0.procs()[pid]
                    },
                ));
                lemma_requeued(&k0, kernel, hart as int, pid);
            }
        },
        None => {
            proof {
                assert(kernel.processors@ =~= k0.processors@);
            }
        },
    }
    let mut cpu = kernel.take_cpu(hart);
    cpu.intena = intena;
    kernel.put_cpu(hart, cpu);
    proof {
        assert(kernel.processors@ =~= k0.processors@.update(
            hart as int,
            Processor { current: None, ..k0.processors@[hart as int] },
        ));
    }
}

/// A running process that leaves its hart for the tail of the ready queue
/// leaves the kernel well formed.
proof fn lemma_requeued(k0: &Kernel, k1: &Kernel, hart: int, pid: usize)
    requires
        k0.sound(),
        0 <= hart < k0.processors@.len(),
        k0.processors@[hart].current == Some(pid),
        k1.layout == k0.layout,
        k1.entries == k0.entries,
        k1.lazy_heap == k0.lazy_heap,
        k1.frame_allocator == k0.frame_allocator,
        k1.kernel_space == k0.kernel_space,
        k1.pid_allocator == k0.pid_allocator,
        k1.apps == k0.apps,
        k1.processors@ == k0.processors@.update(
            hart,
            Processor { current: None, ..k0.processors@[hart] },
        ),
        k1.task_manager@ == k0.task_manager@.push(pid),
        k1.procs() == k0.procs().insert(
            pid,
            crate::task::task::TaskControlBlock {
                inner: crate::task::task::TaskControlBlockInner {
                    task_status: TaskStatus::Ready,
                    ..k0.procs()[pid].inner
                },
                ..k0.procs()[pid]
            },
        ),
    ensures
        k1.sound(),
        scheduled(k0, k1, hart),
{
    let t0 = k0.procs();
    let t1 = k1.procs();
    let q0 = k0.task_manager@;
    let q1 = k1.task_manager@;
    let c0 = k0.processors@;
    let c1 = k1.processors@;
    assert(t0.contains_key(pid) && t0[pid].inner.task_status == TaskStatus::Running);
    assert(t1.dom() =~= t0.dom());
    assert(crate::kernel::owned_map(t1) =~= crate::kernel::owned_map(t0));
    assert forall|x: usize| #[trigger] t1.contains_key(x) implies t1[x].wf() && t1[x].pid.0 == x && (
    t1[x].inner.task_status != TaskStatus::Zombie ==> t1[x].inner.memory_set.accounted(
        &k1.frame_allocator,
    )) by {
        assert(t0.contains_key(x));
    }
    assert(crate::kernel::family_inv(t1)) by {
        assert forall|x: usize| #[trigger] t1.contains_key(x) implies t1[x].inner.children@.no_duplicates() by {
            assert(t0.contains_key(x));
        }
        assert forall|x: usize, i: int|
            t1.contains_key(x) && 0 <= i < t1[x].inner.children@.len() implies {
            let c = #[trigger] t1[x].inner.children@[i];
            &&& t1.contains_key(c)
            &&& t1[c].inner.parent == Some(x)
        } by {
            assert(t0.contains_key(x));
            let c = t0[x].inner.children@[i];
            assert(t0.contains_key(c));
        }
        assert forall|x: usize| #[trigger] t1.contains_key(x) implies (
        t1[x].inner.parent matches Some(q) ==> t1.contains_key(q) && q != x
            && t1[q].inner.children@.contains(x)) by {
            assert(t0.contains_key(x));
        }
        assert forall|x: usize| #[trigger] t1.contains_key(x) implies {
            &&& t1.contains_key(crate::kernel::INITPROC_PID)
            &&& t1[crate::kernel::INITPROC_PID].inner.task_status != TaskStatus::Zombie
            &&& (x == crate::kernel::INITPROC_PID <==> t1[x].inner.parent.is_none())
        } by {
            assert(t0.contains_key(x));
        }
    }
    assert(crate::kernel::sched_inv(t1, q1, c1)) by {
        assert(!q0.contains(pid)) by {
            if q0.contains(pid) {
                let i = choose|i: int| 0 <= i < q0.len() && q0[i] == pid;
                assert(t0[q0[i]].inner.task_status == TaskStatus::Ready);
            }
        }
        assert forall|i: int, j: int| 0 <= i < q1.len() && 0 <= j < q1.len() && i != j implies q1[i]
            != q1[j] by {
            if i < q0.len() {
                assert(q0.contains(q1[i]));
            }
            if j < q0.len() {
                assert(q0.contains(q1[j]));
            }
        }
        assert forall|i: int| 0 <= i < q1.len() implies t1.contains_key(#[trigger] q1[i])
            && t1[q1[i]].inner.task_status == TaskStatus::Ready by {
            if i < q0.len() {
                assert(q1[i] == q0[i]);
                assert(t0.contains_key(q0[i]));
            }
        }
        assert forall|h: int| 0 <= h < c1.len() implies ((#[trigger] c1[h]).current matches Some(x)
            ==> t1.contains_key(x) && t1[x].inner.task_status == TaskStatus::Running) by {
            if h != hart {
                assert(c1[h] == c0[h]);
                assert(c0[hart].current.is_some());
                assert(c0[h].current != c0[hart].current || c0[h].current.is_none()) by {
                    if c0[h].current.is_some() {
                        assert(c0[h].current != c0[hart].current);
                    }
                }
            }
        }
        assert forall|h1: int, h2: int|
            0 <= h1 < c1.len() && 0 <= h2 < c1.len() && h1 != h2 && (
            #[trigger] c1[h1]).current.is_some() implies c1[h1].current != (#[trigger] c1[h2]).current by {
            assert(c1[h1] == c0[h1]);
            if h2 != hart {
                assert(c1[h2] == c0[h2]);
            }
        }
        assert forall|x: usize| #[trigger] t1.contains_key(x) implies match t1[x].inner.task_status {
            TaskStatus::Ready => q1.contains(x),
            TaskStatus::Running => crate::kernel::on_hart(c1, x),
            _ => true,
        } by {
            assert(t0.contains_key(x));
            if x == pid {
                assert(q1[q0.len() as int] == pid);
            } else if t0[x].inner.task_status == TaskStatus::Ready {
                let i = choose|i: int| 0 <= i < q0.len() && q0[i] == x;
                assert(q1[i] == x);
            } else if t0[x].inner.task_status == TaskStatus::Running {
                assert(crate::kernel::on_hart(c0, x));
                let h = choose|h: int| 0 <= h < c0.len() && (#[trigger] c0[h]).current == Some(x);
                assert(c1[h] == c0[h]);
            }
        }
    }
}


/// What `scheduler` does to the kernel when it picks process `pid`: the
/// process leaves the head of the ready queue, is running, and is on hart
/// `hart`, which takes interrupts.
pub open spec fn dispatched(old: &Kernel, new: &Kernel, hart: int, pid: usize) -> bool {
    &&& new.layout == old.layout
    &&& new.entries == old.entries
    &&& new.lazy_heap == old.lazy_heap
    &&& new.frame_allocator == old.frame_allocator
    &&& new.kernel_space == old.kernel_space
    &&& new.pid_allocator == old.pid_allocator
    &&& new.apps == old.apps
    &&& old.task_manager@.len() > 0
    &&& pid == old.task_manager@[0]
    &&& new.task_manager@ == old.task_manager@.subrange(1, old.task_manager@.len() as int)
    &&& new.processors@ == old.processors@.update(
        hart,
        Processor {
            current: Some(pid),
            interrupts: true,
            intena: true,
            ..old.processors@[hart]
        },
    )
    &&& new.procs() == old.procs().insert(
        pid,
        crate::task::task::TaskControlBlock {
            inner: crate::task::task::TaskControlBlockInner {
                task_status: TaskStatus::Running,
                ..old.procs()[pid].inner
            },
            ..old.procs()[pid]
        },
    )
}

/// One turn of the scheduler loop of hart `hart`, which runs nothing:
/// interrupts are switched on, and the process at the head of the ready
/// queue, if there is one, is taken off the queue, marked running and put
/// on the hart. Returns the process to switch to.
pub fn scheduler(kernel: &mut Kernel, hart: usize) -> (r: Option<usize>)
    requires
        old(kernel).wf(),
        hart < MAX_CPU_NUM,
        old(kernel).processors@[hart as int].current.is_none(),
    ensures
        final(kernel).wf(),
        match r {
            Some(pid) => dispatched(old(kernel), final(kernel), hart as int, pid),
            None => {
                &&& old(kernel).task_manager@.len() == 0
                &&& old(kernel).same_but_harts(final(kernel))
                &&& final(kernel).processors@ == old(kernel).processors@.update(
                    hart as int,
                    Processor { interrupts: true, ..old(kernel).processors@[hart as int] },
                )
            },
        },
{
    let ghost k0 = *kernel;
    let mut cpu = kernel.take_cpu(hart);
    intr_on(&mut cpu);
    let next = match fetch_task(&mut kernel.task_manager) {
        Some(next) => next,
        None => {
            kernel.put_cpu(hart, cpu);
            proof {
                assert(kernel.processors@ =~= k0.processors@.update(
                    hart as int,
                    Processor { interrupts: true, ..k0.processors@[hart as int] },
                ));
                assert(kernel.task_manager@ =~= k0.task_manager@);
                Kernel::lemma_interrupts_changed(&k0, kernel, hart as int);
            }
            return None;
        },
    };
    push_off(&mut cpu);
    proof {
        assert(k0.task_manager@[0] == next);
        assert(k0.procs().contains_key(next));
    }
    let mut task = kernel.tasks.remove(&next).unwrap();
    if task.inner.task_status != TaskStatus::Ready {
        proof {
            assert(false);
        }
        kernel.tasks.insert(next, task);
        pop_off(&mut cpu);
        kernel.put_cpu(hart, cpu);
        return None;
    }
    task.inner.task_status = TaskStatus::Running;
    kernel.tasks.insert(next, task);
    cpu.set_current(Some(next));
    pop_off(&mut cpu);
    kernel.put_cpu(hart, cpu);
    proof {
        assert(kernel.processors@ =~= k0.processors@.update(
            hart as int,
            Processor {
                current: Some(next),
                interrupts: true,
                intena: true,
                ..k0.processors@[hart as int]
            },
        ));
        assert(kernel.procs() =~= k0.procs().insert(
            next,
            crate::task::task::TaskControlBlock {
                inner: crate::task::task::TaskControlBlockInner {
                    task_status: TaskStatus::Running,
                    ..k0.procs()[next].inner
                },
                ..k0.procs()[next]
            },
        ));
        lemma_dispatched(&k0, kernel, hart as int, next);
    }
    Some(next)
}

/// The head of the ready queue moving to a hart that runs nothing leaves
/// the kernel well formed.
proof fn lemma_dispatched(k0: &Kernel, k1: &Kernel, hart: int, pid: usize)
    requires
        k0.wf(),
        0 <= hart < k0.processors@.len(),
        k0.processors@[hart].current.is_none(),
        dispatched(k0, k1, hart, pid),
    ensures
        k1.wf(),
{
    let t0 = k0.procs();
    let t1 = k1.procs();
    let q0 = k0.task_manager@;
    let q1 = k1.task_manager@;
    let c0 = k0.processors@;
    let c1 = k1.processors@;
    assert(t0.contains_key(q0[0]) && t0[q0[0]].inner.task_status == TaskStatus::Ready);
    assert(t1.dom() =~= t0.dom());
    assert(crate::kernel::owned_map(t1) =~= crate::kernel::owned_map(t0));
    assert forall|x: usize| #[trigger] t1.contains_key(x) implies t1[x].wf() && t1[x].pid.0 == x && (
    t1[x].inner.task_status != TaskStatus::Zombie ==> t1[x].inner.memory_set.accounted(
        &k1.frame_allocator,
    )) by {
        assert(t0.contains_key(x));
    }
    assert(crate::kernel::family_inv(t1)) by {
        assert forall|x: usize| #[trigger] t1.contains_key(x) implies t1[x].inner.children@.no_duplicates() by {
            assert(t0.contains_key(x));
        }
        assert forall|x: usize, i: int|
            t1.contains_key(x) && 0 <= i < t1[x].inner.children@.len() implies {
            let c = #[trigger] t1[x].inner.children@[i];
            &&& t1.contains_key(c)
            &&& t1[c].inner.parent == Some(x)
        } by {
            assert(t0.contains_key(x));
            let c = t0[x].inner.children@[i];
            assert(t0.contains_key(c));
        }
        assert forall|x: usize| #[trigger] t1.contains_key(x) implies (
        t1[x].inner.parent matches Some(q) ==> t1.contains_key(q) && q != x
            && t1[q].inner.children@.contains(x)) by {
            assert(t0.contains_key(x));
        }
        assert forall|x: usize| #[trigger] t1.contains_key(x) implies {
            &&& t1.contains_key(crate::kernel::INITPROC_PID)
            &&& t1[crate::kernel::INITPROC_PID].inner.task_status != TaskStatus::Zombie
            &&& (x == crate::kernel::INITPROC_PID <==> t1[x].inner.parent.is_none())
        } by {
            assert(t0.contains_key(x));
        }
    }
    assert(crate::kernel::sched_inv(t1, q1, c1)) by {
        assert forall|i: int, j: int| 0 <= i < q1.len() && 0 <= j < q1.len() && i != j implies q1[i]
            != q1[j] by {
            assert(q1[i] == q0[i + 1] && q1[j] == q0[j + 1]);
        }
        assert forall|i: int| 0 <= i < q1.len() implies t1.contains_key(#[trigger] q1[i])
            && t1[q1[i]].inner.task_status == TaskStatus::Ready by {
            assert(q1[i] == q0[i + 1]);
            assert(t0.contains_key(q0[i + 1]));
            assert(q0[i + 1] != q0[0]);
        }
        assert forall|h: int| 0 <= h < c1.len() implies ((#[trigger] c1[h]).current matches Some(x)
            ==> t1.contains_key(x) && t1[x].inner.task_status == TaskStatus::Running) by {
            if h != hart {
                assert(c1[h] == c0[h]);
                if let Some(x) = c0[h].current {
                    assert(t0[x].inner.task_status == TaskStatus::Running);
                    assert(x != pid);
                }
            }
        }
        assert forall|h1: int, h2: int|
            0 <= h1 < c1.len() && 0 <= h2 < c1.len() && h1 != h2 && (
            #[trigger] c1[h1]).current.is_some() implies c1[h1].current != (#[trigger] c1[h2]).current by {
            if h1 != hart {
                assert(c1[h1] == c0[h1]);
                if let Some(x) = c0[h1].current {
                    assert(t0[x].inner.task_status == TaskStatus::Running);
                }
            }
            if h2 != hart {
                assert(c1[h2] == c0[h2]);
                if let Some(x) = c0[h2].current {
                    assert(t0[x].inner.task_status == TaskStatus::Running);
                }
            }
        }
        assert forall|x: usize| #[trigger] t1.contains_key(x) implies match t1[x].inner.task_status {
            TaskStatus::Ready => q1.contains(x),
            TaskStatus::Running => crate::kernel::on_hart(c1, x),
            _ => true,
        } by {
            assert(t0.contains_key(x));
            if x == pid {
                assert(c1[hart].current == Some(pid));
            } else if t0[x].inner.task_status == TaskStatus::Ready {
                let i = choose|i: int| 0 <= i < q0.len() && q0[i] == x;
                assert(i > 0);
                assert(q1[i - 1] == x);
            } else if t0[x].inner.task_status == TaskStatus::Running {
                assert(crate::kernel::on_hart(c0, x));
                let h = choose|h: int| 0 <= h < c0.len() && (#[trigger] c0[h]).current == Some(x);
                assert(c1[h] == c0[h]);
            }
        }
    }
    assert(nothing_held(c1)) by {
        assert forall|h: int| 0 <= h < c1.len() implies (#[trigger] c1[h]).noff == 0 by {
            if h != hart {
                assert(c1[h] == c0[h]);
            }
        }
    }
}

} // verus!
