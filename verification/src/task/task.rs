//! The process control block.

use vstd::prelude::*;
use crate::config::{PID_LIMIT, TRAP_CONTEXT, VA_LIMIT, VPN_LIMIT};
use crate::mm::address::{PhysPageNum, VirtAddr, VirtPageNum};
use crate::mm::demand::{frames_needed, lacks_after};
use crate::mm::elf::elf_image_of;
use crate::mm::flags::{MapPermission, FLAG_R, FLAG_U, FLAG_W};
use crate::mm::frame_allocator::StackFrameAllocator;
use crate::mm::memory_set::{
    foreign, mapped_range, trampoline_vpn, trap_context_vpn, unmapped_range, MapArea, MapType,
    MemorySet,
};
use crate::mm::page_table::MemError;
use crate::mm::elf::ElfImageView;
use crate::mm::user_space::{
    full_plan, heap_bottom_of, image_demand, image_ok, is_image_of, layout_ok, lemma_heap_area_of,
    load_plan, max_end, LoadError,
};
use crate::task::context::TaskContext;
use crate::error::KernelError;
use crate::task::pid::{
    kernel_stack_demand, kernel_stack_vpn, pid_alloc, spec_kernel_stack_position, KernelStack, PidAllocator, PidHandle,
};
use crate::trap::context::{TrapContext, REG_SP, SSTATUS_SPP};
use crate::vars::KernelEntries;

verus! {

/// The state of a process.
#[derive(Copy, Clone, PartialEq, Eq, Debug, Structural)]
pub enum TaskStatus {
    /// Waiting in the ready queue.
    Ready,
    /// On a hart.
    Running,
    /// Exited; its exit code waits to be collected.
    Zombie,
    /// Collected. The kernel drops a process when its exit code is
    /// collected, so it keeps none in this state.
    Exited,
}

/// The part of a process that changes while it lives.
pub struct TaskControlBlockInner {
    pub task_status: TaskStatus,
    /// Where the process continues in the kernel when it is switched to.
    pub task_cx: TaskContext,
    pub memory_set: MemorySet,
    /// The frame of the trap-context page.
    pub trap_cx_ppn: PhysPageNum,
    /// What the trap-context page holds.
    pub trap_cx: TrapContext,
    pub heap_bottom: u64,
    /// The end of the heap.
    pub program_brk: u64,
    /// The process that forked this one, or the one that adopted it.
    pub parent: Option<usize>,
    pub children: Vec<usize>,
    /// The exit code.
    pub xcode: i32,
}

/// A process: its identity and kernel stack, which it keeps for life, and
/// the part that changes.
pub struct TaskControlBlock {
    pub pid: PidHandle,
    pub kernel_stack: KernelStack,
    pub inner: TaskControlBlockInner,
}

/// The first page at or after address `addr`, taken modulo 2^39.
pub open spec fn page_after(addr: int) -> int {
    (addr % (VA_LIMIT as int) + 4095) / 4096
}

/// The page of address `addr`, taken modulo 2^39.
pub open spec fn page_of(addr: int) -> int {
    (addr % (VA_LIMIT as int)) / 4096
}

impl TaskControlBlockInner {
    /// The heap does not end below its bottom. A process that has not exited
    /// has a well-formed address space with the trampoline and the
    /// trap-context page mapped, the latter to the recorded frame. A zombie
    /// owns no frame and has no children.
    pub open spec fn wf(&self) -> bool {
        &&& self.heap_bottom <= self.program_brk
        &&& self.task_status != TaskStatus::Zombie ==> {
            &&& self.memory_set.inv()
            &&& self.memory_set.has_trampoline()
            &&& self.memory_set@.contains_key(trap_context_vpn())
            &&& self.trap_cx_ppn == self.memory_set@[trap_context_vpn()].spec_ppn()
        }
        &&& self.task_status == TaskStatus::Zombie ==> {
            &&& self.memory_set.owned() == Set::<u64>::empty()
            &&& self.children@.len() == 0
        }
    }

    /// Whether `other` differs from `self` in the address space and the break at most.
    pub open spec fn same_but_memory(&self, other: &TaskControlBlockInner) -> bool {
        &&& other.task_status == self.task_status
        &&& other.task_cx == self.task_cx
        &&& other.trap_cx_ppn == self.trap_cx_ppn
        &&& other.trap_cx == self.trap_cx
        &&& other.heap_bottom == self.heap_bottom
        &&& other.parent == self.parent
        &&& other.children == self.children
        &&& other.xcode == self.xcode
    }

    /// Key of the heap area: the page of the bottom of the heap.
    pub open spec fn heap_key(&self) -> u64 {
        page_of(self.heap_bottom as int) as u64
    }

    /// Whether the heap has its area, in step with the break: a framed
    /// area that starts at the page of the bottom of the heap, ends at the
    /// page of the break and keeps off the trap-context page, with bottom
    /// and break in one stretch of 2^39 bytes. It is so for a process
    /// that has just been loaded, for the copy of a process of which it is
    /// so, and it stays so while the break is moved with the pages of the
    /// heap mapped at once.
    pub open spec fn heap_in_step(&self) -> bool {
        let a = self.memory_set.areas()[self.heap_key()];
        &&& self.memory_set.areas().contains_key(self.heap_key())
        &&& a.map_type() == MapType::Framed
        &&& a.end() == page_after(self.program_brk as int)
        &&& !a.contains(trap_context_vpn())
        &&& self.heap_bottom as int / (VA_LIMIT as int) == self.program_brk as int / (VA_LIMIT as int)
    }

    /// A process that has just been loaded from the program `image` has
    /// its heap in step, unless the segments of the program end at the
    /// trap-context page, where the heap has no area of its own.
    pub proof fn lemma_loaded_heap_in_step(
        &self,
        image: ElfImageView,
        file: Seq<u8>,
        strampoline: u64,
    )
        requires
            is_image_of(&self.memory_set, image, file, strampoline),
            layout_ok(full_plan(image)),
            self.heap_bottom == heap_bottom_of(image),
            self.program_brk == self.heap_bottom,
            max_end(load_plan(image.segments)) != trap_context_vpn(),
        ensures
            self.heap_in_step(),
    {
        let top = max_end(load_plan(image.segments));
        lemma_heap_area_of(image);
        let b = top * 4096;
        assert(0 <= b < VA_LIMIT);
        assert(self.heap_bottom as int % (VA_LIMIT as int) == b);
        assert(page_of(self.heap_bottom as int) == top);
        assert(page_after(self.program_brk as int) == top);
    }

    /// With the heap in step, the break may stay where it is or go down
    /// as far as the bottom of the heap.
    pub proof fn lemma_shrink_allowed(&self, size: i32)
        requires
            self.wf(),
            self.task_status != TaskStatus::Zombie,
            self.heap_in_step(),
            size <= 0,
            self.heap_bottom <= self.program_brk + size,
        ensures
            self.brk_allowed(size, false),
    {
        let a = self.memory_set.areas()[self.heap_key()];
        let nb = self.program_brk + size;
        let m = VA_LIMIT as int;
        let q = self.heap_bottom as int / m;
        assert(a.start() == self.heap_key());
        assert(a.wf());
        assert(self.heap_bottom as int == m * q + self.heap_bottom as int % m);
        assert(self.program_brk as int == m * q + self.program_brk as int % m);
        assert(nb / m == q && nb % m == nb - m * q) by {
            assert(m * q <= nb < m * q + m);
            vstd::arithmetic::div_mod::lemma_fundamental_div_mod_converse(nb, m, q, nb - m * q);
        }
        if size == 0 {
            assert(forall|v: u64|
                a.end() <= v < page_after(nb) ==> !(#[trigger] self.memory_set@.contains_key(v)));
        }
    }

    /// Moving the break with the pages mapped at once keeps the heap in step.
    pub proof fn lemma_brk_keeps_step(
        s0: &TaskControlBlockInner,
        s1: &TaskControlBlockInner,
        size: i32,
    )
        requires
            s0.wf(),
            s0.task_status != TaskStatus::Zombie,
            s0.heap_in_step(),
            s0.brk_allowed(size, false),
            Self::brk_moved(s0, s1, size, false),
        ensures
            s1.heap_in_step(),
    {
        let k = s0.heap_key();
        let a = s0.memory_set.areas()[k];
        let nb = s0.program_brk + size;
        let e = page_after(nb);
        let m = VA_LIMIT as int;
        let q = s0.heap_bottom as int / m;
        assert(a.start() == k);
        assert(a.wf());
        assert(s1.heap_key() == k);
        assert(s1.memory_set.areas()[k] == a.with_end(e as u64));
        assert(s0.memory_set@.contains_key(trap_context_vpn()));
        assert(s0.heap_bottom as int == m * q + s0.heap_bottom as int % m);
        assert(s0.program_brk as int == m * q + s0.program_brk as int % m);
        assert(nb == m * (nb / m) + nb % m);
        if size < 0 {
            assert(nb / m == q) by {
                assert(m * q <= nb < m * q + m);
                vstd::arithmetic::div_mod::lemma_fundamental_div_mod_converse(nb, m, q, nb - m * q);
            }
        } else {
            assert(nb / m == q) by {
                if nb >= m * q + m {
                    assert(nb < m * q + m + 0x8000_0000);
                    vstd::arithmetic::div_mod::lemma_fundamental_div_mod_converse(
                        nb,
                        m,
                        q + 1,
                        nb - m * (q + 1),
                    );
                    assert(nb % m < 0x8000_0000);
                    assert(s0.program_brk as int % m >= m - 0x8000_0000);
                    assert(e < a.end());
                } else {
                    vstd::arithmetic::div_mod::lemma_fundamental_div_mod_converse(nb, m, q, nb - m * q);
                }
            }
        }
    }

    /// Whether the break can be moved by `size` bytes: the new break lies
    /// at or above the bottom of the heap and in the address range; without
    /// lazy allocation an area starts at the bottom of the heap, a shrunk
    /// heap ends within it, and a grown heap extends it over free pages;
    /// and the trap-context page is not among the pages given up.
    pub open spec fn brk_allowed(&self, size: i32, lazy: bool) -> bool {
        let nb = self.program_brk + size;
        let e = page_after(nb);
        &&& self.heap_bottom <= nb <= u64::MAX
        &&& lazy ==> (size < 0 ==> !(e <= trap_context_vpn() < page_of(self.program_brk as int)))
        &&& !lazy ==> {
            let a = self.memory_set.areas()[self.heap_key()];
            &&& self.memory_set.areas().contains_key(self.heap_key())
            &&& size < 0 ==> a.start() <= e <= a.end() && !(e <= trap_context_vpn() < a.end())
            &&& size >= 0 ==> {
                &&& a.end() <= e <= VPN_LIMIT
                &&& !(a.end() <= trampoline_vpn() < e)
                &&& forall|v: u64| a.end() <= v < e ==> !(#[trigger] self.memory_set@.contains_key(v))
            }
        }
    }

    /// What moving the break by `size` bytes does to a process that is
    /// allowed to: the break moves, and without lazy allocation the heap
    /// area is cut back or extended to the page of the new break.
    pub open spec fn brk_moved(
        old: &TaskControlBlockInner,
        new: &TaskControlBlockInner,
        size: i32,
        lazy: bool,
    ) -> bool {
        let k = old.heap_key();
        let a = old.memory_set.areas()[k];
        let e = page_after(old.program_brk + size) as u64;
        &&& old.same_but_memory(new)
        &&& new.program_brk == old.program_brk + size
        &&& new.memory_set.inv()
        &&& new.memory_set.table().root() == old.memory_set.table().root()
        &&& !lazy && size < 0 ==> {
            &&& new.memory_set.areas() == old.memory_set.areas().insert(k, a.with_end(e))
            &&& unmapped_range(
                old.memory_set.table(),
                new.memory_set.table(),
                a.map_type(),
                e as int,
                a.end(),
            )
        }
        &&& !lazy && size >= 0 ==> {
            &&& new.memory_set.areas() == old.memory_set.areas().insert(k, a.with_end(e))
            &&& mapped_range(
                old.memory_set.table(),
                new.memory_set.table(),
                a.map_type(),
                a.perm(),
                a.end(),
                e as int,
            )
        }
        &&& lazy && size >= 0 ==> {
            &&& new.memory_set@ == old.memory_set@
            &&& new.memory_set.areas() == old.memory_set.areas()
            &&& new.memory_set.frames() == old.memory_set.frames()
        }
        &&& lazy && size < 0 ==> {
            &&& forall|v: u64|
                #![trigger new.memory_set@.contains_key(v)]
                #![trigger old.memory_set@.contains_key(v)]
                new.memory_set@.contains_key(v) <==> old.memory_set@.contains_key(v) && !(e <= v
                    < page_of(old.program_brk as int) && old.memory_set.areas().contains_key(v)
                    && MemorySet::single_page(old.memory_set.areas()[v]))
            &&& forall|v: u64| #[trigger]
                new.memory_set@.contains_key(v) ==> new.memory_set@[v] == old.memory_set@[v]
        }
    }

    /// The frames that moving the end of the heap by `size` bytes takes:
    /// those for the pages that the heap gains, and none where it shrinks
    /// or its pages are mapped only when they are touched.
    pub open spec fn brk_demand(&self, size: i32, lazy: bool) -> nat {
        if lazy || size < 0 {
            0
        } else {
            self.memory_set.areas()[self.heap_key()].growth_demand(
                self.memory_set.lacks(),
                page_after(self.program_brk + size),
            )
        }
    }

    /// The frames that moving the end of the heap by `size` bytes gives
    /// back, where its pages are mapped at once: those of the pages that
    /// the heap loses. The directory pages stay with the page table.
    pub open spec fn brk_release(&self, size: i32) -> nat {
        let a = self.memory_set.areas()[self.heap_key()];
        if size < 0 && a.map_type() == MapType::Framed {
            (a.end() - page_after(self.program_brk + size)) as nat
        } else {
            0
        }
    }

    /// Moves the end of the heap by `size` bytes and returns the old end;
    /// `None`, with nothing changed, when that is not allowed. Fails
    /// exactly when the move is allowed and the allocator has fewer frames
    /// than it takes.
    pub fn change_brk(&mut self, allocator: &mut StackFrameAllocator, size: i32, lazy: bool) -> (r:
        Result<Option<u64>, MemError>)
        requires
            old(self).wf(),
            old(self).task_status != TaskStatus::Zombie,
            old(allocator).wf(),
            old(self).memory_set.accounted(old(allocator)),
        ensures
            final(allocator).wf(),
            r.is_err() <==> old(self).brk_allowed(size, lazy) && old(allocator).free_count() < old(
                self,
            ).brk_demand(size, lazy),
            r matches Ok(res) ==> {
                &&& res.is_some() <==> old(self).brk_allowed(size, lazy)
                &&& res.is_some() ==> {
                    &&& res == Some(old(self).program_brk)
                    &&& Self::brk_moved(old(self), final(self), size, lazy)
                    &&& !lazy ==> final(allocator).free_count() == old(allocator).free_count()
                        - old(self).brk_demand(size, lazy) + old(self).brk_release(size)
                    &&& final(self).wf()
                    &&& final(self).memory_set.accounted(final(allocator))
                    &&& foreign(final(self).memory_set.table(), final(allocator)) == foreign(
                        old(self).memory_set.table(),
                        old(allocator),
                    )
                }
                &&& res.is_none() ==> *final(self) == *old(self) && *final(allocator) == *old(
                    allocator,
                )
            },
    {
        let ghost s0 = *self;
        let old_brk = self.program_brk;
        let target: i128 = self.program_brk as i128 + size as i128;
        if target < self.heap_bottom as i128 || target > u64::MAX as i128 {
            return Ok(None);
        }
        let new_brk = target as u64;
        let start = VirtAddr::from(self.heap_bottom);
        let end = VirtAddr::from(new_brk);
        let e = end.ceil().0;
        if lazy {
            if size < 0 {
                let top = VirtAddr::from(self.program_brk).floor().0;
                if e <= 0x7ff_fffe && 0x7ff_fffe < top {
                    return Ok(None);
                }
                self.memory_set.remove_framed_area(allocator, end, VirtAddr::from(self.program_brk));
                proof {
                    assert(self.memory_set@.contains_key(trampoline_vpn())) by {
                        if s0.memory_set.areas().contains_key(trampoline_vpn()) {
                            assert(s0.memory_set.areas()[trampoline_vpn()].start() == trampoline_vpn());
                            let a = s0.memory_set.areas()[trampoline_vpn()];
                            assert(!a.contains(trampoline_vpn()));
                        }
                    }
                    assert(self.memory_set@.contains_key(trap_context_vpn()));
                }
            }
            self.program_brk = new_brk;
            return Ok(Some(old_brk));
        }
        let area = match self.memory_set.area(start.floor()) {
            Some(area) => area,
            None => {
                return Ok(None);
            },
        };
        let (al, ar): (u64, u64) = (area.get_start().0, area.get_end().0);
        if size < 0 {
            if !(al <= e && e <= ar) || (e <= 0x7ff_fffe && 0x7ff_fffe < ar) {
                return Ok(None);
            }
            proof {
                assert(s0.memory_set.areas()[s0.heap_key()].wf());
            }
            self.memory_set.shrink_to(allocator, start, end);
            proof {
                assert(!area.contains(trampoline_vpn()));
                assert(self.memory_set@.contains_key(trampoline_vpn())) by {
                    assert(self.memory_set.table()@.contains_key(trampoline_vpn())
                        == s0.memory_set.table()@.contains_key(trampoline_vpn()));
                }
                assert(self.memory_set@.contains_key(trap_context_vpn()) && self.memory_set@[trap_context_vpn()]
                    == s0.memory_set@[trap_context_vpn()]) by {
                    assert(self.memory_set.table()@.contains_key(trap_context_vpn())
                        == s0.memory_set.table()@.contains_key(trap_context_vpn()));
                    assert(s0.memory_set.table()@.contains_key(trap_context_vpn()));
                    assert(self.memory_set.table()@[trap_context_vpn()] == s0.memory_set.table()@[trap_context_vpn()]);
                }
            }
        } else {
            if !(ar <= e && e <= VPN_LIMIT) || (ar <= 0x7ff_ffff && 0x7ff_ffff < e) {
                return Ok(None);
            }
            if !self.memory_set.range_free(ar, e) {
                return Ok(None);
            }
            match self.memory_set.append_to(allocator, start, end) {
                Ok(_) => {},
                Err(err) => {
                    return Err(err);
                },
            }
            proof {
                assert(self.memory_set@.contains_key(trampoline_vpn())) by {
                    assert(s0.memory_set.table()@.contains_key(trampoline_vpn()));
                    assert(self.memory_set.table()@.contains_key(trampoline_vpn())
                        == s0.memory_set.table()@.contains_key(trampoline_vpn()));
                }
                assert(self.memory_set@.contains_key(trap_context_vpn()) && self.memory_set@[trap_context_vpn()]
                    == s0.memory_set@[trap_context_vpn()]) by {
                    assert(s0.memory_set.table()@.contains_key(trap_context_vpn()));
                    assert(self.memory_set.table()@.contains_key(trap_context_vpn())
                        == s0.memory_set.table()@.contains_key(trap_context_vpn()));
                    assert(self.memory_set.table()@[trap_context_vpn()] == s0.memory_set.table()@[trap_context_vpn()]);
                }
            }
        }
        self.program_brk = new_brk;
        Ok(Some(old_brk))
    }

    /// The frames that mapping the page of address `addr` takes: one for
    /// the page and those for the directories that the walk to it lacks.
    pub open spec fn page_demand(&self, addr: VirtAddr) -> nat {
        frames_needed(self.memory_set.lacks(), true, addr.0 as int / 4096, addr.0 as int / 4096 + 1)
    }

    /// Maps the page of address `addr` to a fresh frame, readable and
    /// writable from user mode, unless a page is mapped there already.
    /// Returns whether it mapped the page. Fails exactly when the page is
    /// to be mapped and the allocator has fewer frames than that takes.
    pub fn lazy_alloc_page(&mut self, allocator: &mut StackFrameAllocator, addr: VirtAddr) -> (r:
        Result<bool, MemError>)
        requires
            old(self).wf(),
            old(self).task_status != TaskStatus::Zombie,
            old(allocator).wf(),
            old(self).memory_set.accounted(old(allocator)),
            addr.wf(),
        ensures
            final(allocator).wf(),
            r.is_err() <==> !old(self).memory_set@.contains_key((addr.0 / 4096) as u64) && old(
                allocator,
            ).free_count() < old(self).page_demand(addr),
            r matches Ok(mapped) ==> {
                let v = (addr.0 / 4096) as u64;
                &&& mapped == !old(self).memory_set@.contains_key(v)
                &&& final(self).wf()
                &&& old(self).same_but_memory(final(self))
                &&& final(self).program_brk == old(self).program_brk
                &&& final(self).memory_set.accounted(final(allocator))
                &&& foreign(final(self).memory_set.table(), final(allocator)) == foreign(
                    old(self).memory_set.table(),
                    old(allocator),
                )
                &&& !mapped ==> *final(self) == *old(self) && *final(allocator) == *old(allocator)
                &&& mapped ==> {
                    &&& final(self).memory_set.areas().contains_key(v)
                    &&& MemorySet::single_page(final(self).memory_set.areas()[v])
                    &&& final(self).memory_set.areas()[v].perm().bits == 22
                    &&& MemorySet::pushed(
                        &old(self).memory_set,
                        &final(self).memory_set,
                        final(self).memory_set.areas()[v],
                        None,
                    )
                }
            },
    {
        let ghost s0 = *self;
        let vpn = addr.floor();
        if self.memory_set.translate(vpn).is_some() {
            return Ok(false);
        }
        proof {
            let v = vpn.0;
            if s0.memory_set.areas().contains_key(v) {
                let a = s0.memory_set.areas()[v];
                if a.start() < a.end() {
                    assert(a.contains(v));
                }
            }
            assert(v != trampoline_vpn());
        }
        match self.memory_set.insert_framed_area(
            allocator,
            addr,
            VirtAddr(addr.0 + 1),
            MapPermission { bits: FLAG_R + FLAG_W + FLAG_U },
        ) {
            Ok(()) => {},
            Err(e) => {
                return Err(e);
            },
        }
        proof {
            let v = vpn.0;
            let a = self.memory_set.areas()[v];
            assert(!a.contains(trampoline_vpn()));
            assert(!a.contains(trap_context_vpn()));
            assert(s0.memory_set@.contains_key(trampoline_vpn()));
            assert(s0.memory_set@.contains_key(trap_context_vpn()));
        }
        Ok(true)
    }

    /// The `satp` value that selects the address space of the process.
    pub fn get_user_token(&self) -> (r: u64)
        requires
            self.memory_set.inv(),
        ensures
            r == 0x8000_0000_0000_0000 + self.memory_set.table().root(),
    {
        self.memory_set.token()
    }

    /// The trap context of the process.
    pub fn get_trap_cx(&self) -> (r: &TrapContext)
        ensures
            *r == self.trap_cx,
    {
        &self.trap_cx
    }

    pub fn get_status(&self) -> (r: TaskStatus)
        ensures
            r == self.task_status,
    {
        self.task_status
    }

    pub fn is_zombie(&self) -> (r: bool)
        ensures
            r == (self.task_status == TaskStatus::Zombie),
    {
        self.get_status() == TaskStatus::Zombie
    }
}


impl TaskControlBlockInner {
    /// The inner part of a process that is about to start the program whose
    /// ELF file is `elf_data`: ready, with the address space of the program,
    /// a trap context that starts it at its entry point on its user stack,
    /// and a task context that leaves for user mode on the kernel stack of
    /// process `pid`.
    pub fn new(
        allocator: &mut StackFrameAllocator,
        elf_data: &[u8],
        pid: usize,
        kernel_token: u64,
        entries: &KernelEntries,
        sstatus: u64,
        strampoline: u64,
    ) -> (r: Result<Self, LoadError>)
        requires
            old(allocator).wf(),
            pid < PID_LIMIT,
        ensures
            final(allocator).wf(),
            elf_image_of(elf_data@).is_none() ==> r.is_err() && r->Err_0 == LoadError::BadElf,
            elf_image_of(elf_data@) matches Some(image) ==> {
                &&& !image_ok(image, elf_data@.len() as int) ==> r.is_err() && r->Err_0
                    == LoadError::BadElf
                &&& image_ok(image, elf_data@.len() as int) && !layout_ok(full_plan(image))
                    ==> r.is_err() && r->Err_0 == LoadError::Overlap
                &&& image_ok(image, elf_data@.len() as int) && layout_ok(full_plan(image)) ==> (
                r.is_ok() || r->Err_0 == LoadError::OutOfFrames)
                &&& image_ok(image, elf_data@.len() as int) && layout_ok(full_plan(image)) ==> (
                r.is_ok() <==> old(allocator).free_count() >= image_demand(image))
                &&& r matches Ok(inner) ==> {
                    &&& is_image_of(&inner.memory_set, image, elf_data@, strampoline)
                    &&& inner.heap_bottom == heap_bottom_of(image)
                    &&& inner.trap_cx.sepc == image.entry_point
                }
            },
            r.is_err() && r->Err_0 != LoadError::OutOfFrames ==> *final(allocator) == *old(
                allocator,
            ),
            r matches Ok(inner) ==> {
                &&& elf_image_of(elf_data@).is_some()
                &&& inner.wf()
                &&& inner.memory_set.accounted(final(allocator))
                &&& foreign(inner.memory_set.table(), final(allocator)) == old(
                    allocator,
                ).allocated()
                &&& inner.task_status == TaskStatus::Ready
                &&& inner.task_cx.ra == entries.trap_return
                &&& inner.task_cx.sp == spec_kernel_stack_position(pid).1
                &&& inner.program_brk == inner.heap_bottom
                &&& inner.parent.is_none()
                &&& inner.children@.len() == 0
                &&& inner.xcode == 0
                &&& inner.trap_cx.regs@ == Seq::new(32, |i: int| 0u64).update(
                    REG_SP as int,
                    TRAP_CONTEXT,
                )
                &&& inner.trap_cx.sstatus == sstatus & !SSTATUS_SPP
                &&& inner.trap_cx.kernel_satp == kernel_token
                &&& inner.trap_cx.kernel_sp == spec_kernel_stack_position(pid).1
                &&& inner.trap_cx.trap_handler == entries.trap_handler
            },
    {
        let (memory_set, user_stack_top, heap_bottom, entry_point) = match MemorySet::from_elf(
            allocator,
            elf_data,
            strampoline,
        ) {
            Ok(loaded) => loaded,
            Err(e) => {
                return Err(e);
            },
        };
        let trap_cx_ppn = memory_set.translate(VirtAddr::from(TRAP_CONTEXT).floor()).unwrap().ppn();
        let (_, kernel_top) = crate::task::pid::kernel_stack_position(pid);
        let trap_cx = TrapContext::app_init_context(
            entry_point,
            user_stack_top,
            kernel_token,
            kernel_top,
            entries.trap_handler,
            sstatus,
        );
        Ok(
            TaskControlBlockInner {
                task_status: TaskStatus::Ready,
                task_cx: TaskContext::goto_trap_return(kernel_top, entries.trap_return),
                memory_set,
                trap_cx_ppn,
                trap_cx,
                heap_bottom,
                program_brk: heap_bottom,
                parent: None,
                children: Vec::new(),
                xcode: 0,
            },
        )
    }
}

impl TaskControlBlock {
    /// The identifier below the limit, the kernel stack that of the
    /// process, and the inner part well formed.
    pub open spec fn wf(&self) -> bool {
        &&& self.pid.0 < PID_LIMIT
        &&& self.kernel_stack.pid == self.pid.0
        &&& self.inner.wf()
    }

    pub fn get_pid(&self) -> (r: usize)
        ensures
            r == self.pid.0,
    {
        self.pid.0
    }

    /// Replaces the program of the process by the one whose ELF file is
    /// `elf_data`: the old address space goes back to the allocator, and
    /// the trap context starts the new program at its entry point. A file
    /// that cannot be loaded leaves the process as it is.
    pub fn exec(
        &mut self,
        allocator: &mut StackFrameAllocator,
        elf_data: &[u8],
        kernel_token: u64,
        entries: &KernelEntries,
        sstatus: u64,
        strampoline: u64,
    ) -> (r: Result<(), LoadError>)
        requires
            old(self).wf(),
            old(self).inner.task_status != TaskStatus::Zombie,
            old(allocator).wf(),
            old(self).inner.memory_set.accounted(old(allocator)),
        ensures
            final(allocator).wf(),
            elf_image_of(elf_data@).is_none() ==> r.is_err() && r->Err_0 == LoadError::BadElf,
            elf_image_of(elf_data@) matches Some(image) ==> {
                &&& !image_ok(image, elf_data@.len() as int) ==> r.is_err() && r->Err_0
                    == LoadError::BadElf
                &&& image_ok(image, elf_data@.len() as int) && !layout_ok(full_plan(image))
                    ==> r.is_err() && r->Err_0 == LoadError::Overlap
                &&& image_ok(image, elf_data@.len() as int) && layout_ok(full_plan(image)) ==> (
                r.is_ok() || r->Err_0 == LoadError::OutOfFrames)
                &&& image_ok(image, elf_data@.len() as int) && layout_ok(full_plan(image)) ==> (
                r.is_ok() <==> old(allocator).free_count() >= image_demand(image))
                &&& r.is_ok() ==> {
                    &&& is_image_of(&final(self).inner.memory_set, image, elf_data@, strampoline)
                    &&& final(self).inner.trap_cx.sepc == image.entry_point
                }
            },
            r.is_err() && r->Err_0 != LoadError::OutOfFrames ==> *final(self) == *old(self)
                && *final(allocator) == *old(allocator),
            r.is_ok() ==> {
                &&& elf_image_of(elf_data@).is_some()
                &&& final(self).wf()
                &&& final(self).pid == old(self).pid
                &&& final(self).kernel_stack == old(self).kernel_stack
                &&& final(self).inner.memory_set.accounted(final(allocator))
                &&& foreign(final(self).inner.memory_set.table(), final(allocator)) == foreign(
                    old(self).inner.memory_set.table(),
                    old(allocator),
                )
                &&& final(self).inner.task_status == old(self).inner.task_status
                &&& final(self).inner.task_cx == old(self).inner.task_cx
                &&& final(self).inner.heap_bottom == old(self).inner.heap_bottom
                &&& final(self).inner.program_brk == old(self).inner.program_brk
                &&& final(self).inner.parent == old(self).inner.parent
                &&& final(self).inner.children == old(self).inner.children
                &&& final(self).inner.xcode == old(self).inner.xcode
                &&& final(self).inner.trap_cx.regs@ == Seq::new(32, |i: int| 0u64).update(
                    REG_SP as int,
                    TRAP_CONTEXT,
                )
                &&& final(self).inner.trap_cx.sstatus == sstatus & !SSTATUS_SPP
                &&& final(self).inner.trap_cx.kernel_satp == kernel_token
                &&& final(self).inner.trap_cx.kernel_sp == spec_kernel_stack_position(
                    old(self).pid.0,
                ).1
                &&& final(self).inner.trap_cx.trap_handler == entries.trap_handler
            },
    {
        let ghost a0 = *allocator;
        let ghost s0 = *self;
        let (memory_set, user_stack_top, _, entry_point) = match MemorySet::from_elf(
            allocator,
            elf_data,
            strampoline,
        ) {
            Ok(loaded) => loaded,
            Err(e) => {
                return Err(e);
            },
        };
        let ghost a1 = *allocator;
        let trap_cx_ppn = memory_set.translate(VirtAddr::from(TRAP_CONTEXT).floor()).unwrap().ppn();
        proof {
            assert forall|p: u64| #[trigger]
                s0.inner.memory_set.table().owned().contains(p) implies a1.is_allocated(p) by {
                assert(a0.is_allocated(p));
                assert(a0.allocated().contains(p));
                assert(foreign(memory_set.table(), &a1).contains(p));
                assert(a1.allocated().contains(p));
            }
            assert(self.inner.memory_set.table().accounted(allocator));
        }
        self.inner.memory_set.recycle_pages(allocator);
        proof {
            assert forall|p: u64| #[trigger]
                memory_set.table().owned().contains(p) implies allocator.is_allocated(p) by {
                assert(a1.is_allocated(p));
                assert(a1.allocated().contains(p));
                assert(!foreign(memory_set.table(), &a1).contains(p));
                assert(!a0.allocated().contains(p));
                if s0.inner.memory_set.table().owned().contains(p) {
                    assert(a0.is_allocated(p));
                    assert(a0.allocated().contains(p));
                }
                assert(foreign(s0.inner.memory_set.table(), &a1).contains(p));
                assert(allocator.allocated().contains(p));
            }
            assert(foreign(memory_set.table(), allocator) =~= foreign(
                s0.inner.memory_set.table(),
                &a0,
            )) by {
                assert forall|p: u64|
                    foreign(memory_set.table(), allocator).contains(p) == foreign(
                        s0.inner.memory_set.table(),
                        &a0,
                    ).contains(p) by {
                    assert(allocator.allocated().contains(p) == foreign(
                        s0.inner.memory_set.table(),
                        &a1,
                    ).contains(p));
                    assert(a0.allocated().contains(p) == foreign(memory_set.table(), &a1).contains(p));
                    if s0.inner.memory_set.table().owned().contains(p) {
                        assert(a0.is_allocated(p));
                        assert(a0.allocated().contains(p));
                    }
                    if memory_set.table().owned().contains(p) {
                        assert(a1.is_allocated(p));
                        assert(a1.allocated().contains(p));
                    }
                }
            }
        }
        self.inner.trap_cx_ppn = trap_cx_ppn;
        self.inner.memory_set = memory_set;
        self.inner.trap_cx = TrapContext::app_init_context(
            entry_point,
            user_stack_top,
            kernel_token,
            self.kernel_stack.get_top(),
            entries.trap_handler,
            sstatus,
        );
        Ok(())
    }

    /// Forks the process: a new process with identity `handle` and kernel
    /// stack `kernel_stack`, a deep copy of the address space, the same
    /// heap bounds and the same trap context but for its kernel stack
    /// pointer. The new process is ready, continues at the kernel's entry
    /// for forked processes, and is recorded as a child of this one.
    pub fn fork(
        &mut self,
        allocator: &mut StackFrameAllocator,
        handle: PidHandle,
        kernel_stack: KernelStack,
        entries: &KernelEntries,
        strampoline: u64,
    ) -> (r: Result<TaskControlBlock, MemError>)
        requires
            old(self).wf(),
            old(self).inner.task_status != TaskStatus::Zombie,
            old(allocator).wf(),
            handle.0 < PID_LIMIT,
            kernel_stack.pid == handle.0,
        ensures
            final(allocator).wf(),
            r.is_ok() <==> old(allocator).free_count() >= old(self).inner.memory_set.copy_demand(),
            r matches Ok(child) ==> {
                &&& final(allocator).free_count() == old(allocator).free_count() - old(
                    self,
                ).inner.memory_set.copy_demand()
                &&& child.wf()
                &&& child.pid == handle
                &&& child.kernel_stack == kernel_stack
                &&& child.inner.task_status == TaskStatus::Ready
                &&& child.inner.task_cx.ra == entries.fork_ret
                &&& child.inner.task_cx.sp == spec_kernel_stack_position(handle.0).1
                &&& child.inner.memory_set.accounted(final(allocator))
                &&& foreign(child.inner.memory_set.table(), final(allocator)) == old(
                    allocator,
                ).allocated()
                &&& child.inner.memory_set.areas() == old(self).inner.memory_set.areas()
                &&& forall|k: u64, v: u64|
                    old(self).inner.memory_set.areas().contains_key(k) && #[trigger] old(
                        self,
                    ).inner.memory_set.areas()[k].contains(v) ==> (old(
                        self,
                    ).inner.memory_set.areas()[k].map_type() == MapType::Framed
                        ==> child.inner.memory_set.page_bytes(v) == old(
                        self,
                    ).inner.memory_set.page_bytes(v))
                &&& child.inner.trap_cx.regs == old(self).inner.trap_cx.regs
                &&& child.inner.trap_cx.sstatus == old(self).inner.trap_cx.sstatus
                &&& child.inner.trap_cx.sepc == old(self).inner.trap_cx.sepc
                &&& child.inner.trap_cx.kernel_satp == old(self).inner.trap_cx.kernel_satp
                &&& child.inner.trap_cx.trap_handler == old(self).inner.trap_cx.trap_handler
                &&& child.inner.trap_cx.kernel_sp == spec_kernel_stack_position(handle.0).1
                &&& child.inner.heap_bottom == old(self).inner.heap_bottom
                &&& child.inner.program_brk == old(self).inner.program_brk
                &&& child.inner.parent == Some(old(self).pid.0)
                &&& child.inner.children@.len() == 0
                &&& child.inner.xcode == 0
                &&& final(self).wf()
                &&& final(self).pid == old(self).pid
                &&& final(self).kernel_stack == old(self).kernel_stack
                &&& final(self).inner.children@ == old(self).inner.children@.push(handle.0)
                &&& final(self).inner.memory_set == old(self).inner.memory_set
                &&& old(self).inner.same_but_memory(
                    &(TaskControlBlockInner {
                        children: old(self).inner.children,
                        ..final(self).inner
                    }),
                )
                &&& final(self).inner.program_brk == old(self).inner.program_brk
            },
    {
        let memory_set = match MemorySet::from_another(
            allocator,
            &self.inner.memory_set,
            strampoline,
        ) {
            Ok(ms) => ms,
            Err(e) => {
                return Err(e);
            },
        };
        proof {
            let parent = &self.inner.memory_set;
            let v = trap_context_vpn();
            assert(parent.covered(v));
            let k = choose|k: u64| parent.areas().contains_key(k) && #[trigger] parent.areas()[k].contains(v);
            assert(memory_set.areas().contains_key(k) && memory_set.areas()[k].contains(v));
            assert(memory_set@.contains_key(v));
        }
        let trap_cx_ppn = memory_set.translate(VirtAddr::from(TRAP_CONTEXT).floor()).unwrap().ppn();
        let kernel_stack_top = kernel_stack.get_top();
        let mut trap_cx = self.inner.trap_cx;
        trap_cx.kernel_sp = kernel_stack_top;
        let inner = TaskControlBlockInner {
            task_status: TaskStatus::Ready,
            task_cx: TaskContext::goto_forkret(kernel_stack_top, entries.fork_ret),
            memory_set,
            trap_cx_ppn,
            trap_cx,
            heap_bottom: self.inner.heap_bottom,
            program_brk: self.inner.program_brk,
            parent: Some(self.pid.0),
            children: Vec::new(),
            xcode: 0,
        };
        let child_pid = handle.0;
        let child = TaskControlBlock { pid: handle, kernel_stack, inner };
        self.inner.children.push(child_pid);
        Ok(child)
    }

    /// Moves the end of the heap of the process; see
    /// [`TaskControlBlockInner::change_brk`].
    pub fn change_brk(&mut self, allocator: &mut StackFrameAllocator, size: i32, lazy: bool) -> (r:
        Result<Option<u64>, MemError>)
        requires
            old(self).wf(),
            old(self).inner.task_status != TaskStatus::Zombie,
            old(allocator).wf(),
            old(self).inner.memory_set.accounted(old(allocator)),
        ensures
            final(allocator).wf(),
            final(self).pid == old(self).pid,
            final(self).kernel_stack == old(self).kernel_stack,
            r.is_err() <==> old(self).inner.brk_allowed(size, lazy) && old(allocator).free_count()
                < old(self).inner.brk_demand(size, lazy),
            r matches Ok(res) ==> {
                &&& res.is_some() <==> old(self).inner.brk_allowed(size, lazy)
                &&& res.is_some() ==> {
                    &&& res == Some(old(self).inner.program_brk)
                    &&& TaskControlBlockInner::brk_moved(
                        &old(self).inner,
                        &final(self).inner,
                        size,
                        lazy,
                    )
                    &&& !lazy ==> final(allocator).free_count() == old(allocator).free_count()
                        - old(self).inner.brk_demand(size, lazy) + old(self).inner.brk_release(size)
                    &&& final(self).wf()
                    &&& final(self).inner.memory_set.accounted(final(allocator))
                    &&& foreign(final(self).inner.memory_set.table(), final(allocator)) == foreign(
                        old(self).inner.memory_set.table(),
                        old(allocator),
                    )
                }
                &&& res.is_none() ==> *final(self) == *old(self) && *final(allocator) == *old(
                    allocator,
                )
            },
    {
        self.inner.change_brk(allocator, size, lazy)
    }

    /// Maps the page of address `addr` for the heap of the process; see
    /// [`TaskControlBlockInner::lazy_alloc_page`].
    pub fn lazy_alloc_page(&mut self, allocator: &mut StackFrameAllocator, addr: VirtAddr) -> (r:
        Result<bool, MemError>)
        requires
            old(self).wf(),
            old(self).inner.task_status != TaskStatus::Zombie,
            old(allocator).wf(),
            old(self).inner.memory_set.accounted(old(allocator)),
            addr.wf(),
        ensures
            final(allocator).wf(),
            final(self).pid == old(self).pid,
            final(self).kernel_stack == old(self).kernel_stack,
            r.is_err() <==> !old(self).inner.memory_set@.contains_key((addr.0 / 4096) as u64)
                && old(allocator).free_count() < old(self).inner.page_demand(addr),
            r matches Ok(mapped) ==> {
                let v = (addr.0 / 4096) as u64;
                &&& mapped == !old(self).inner.memory_set@.contains_key(v)
                &&& final(self).wf()
                &&& old(self).inner.same_but_memory(&final(self).inner)
                &&& final(self).inner.program_brk == old(self).inner.program_brk
                &&& final(self).inner.memory_set.accounted(final(allocator))
                &&& foreign(final(self).inner.memory_set.table(), final(allocator)) == foreign(
                    old(self).inner.memory_set.table(),
                    old(allocator),
                )
                &&& !mapped ==> *final(self) == *old(self) && *final(allocator) == *old(allocator)
                &&& mapped ==> {
                    &&& final(self).inner.memory_set.areas().contains_key(v)
                    &&& MemorySet::single_page(final(self).inner.memory_set.areas()[v])
                    &&& final(self).inner.memory_set.areas()[v].perm().bits == 22
                    &&& MemorySet::pushed(
                        &old(self).inner.memory_set,
                        &final(self).inner.memory_set,
                        final(self).inner.memory_set.areas()[v],
                        None,
                    )
                }
            },
    {
        self.inner.lazy_alloc_page(allocator, addr)
    }
}


impl TaskControlBlock {
    /// The first process: a fresh identifier, its kernel stack mapped in
    /// `kernel_space`, and the program whose ELF file is `elf_data` loaded.
    pub fn new_for_initproc(
        pid_allocator: &mut PidAllocator,
        kernel_space: &mut MemorySet,
        allocator: &mut StackFrameAllocator,
        elf_data: &[u8],
        entries: &KernelEntries,
        sstatus: u64,
        strampoline: u64,
    ) -> (r: Result<(TaskControlBlock, Ghost<StackFrameAllocator>), KernelError>)
        requires
            old(pid_allocator).wf(),
            old(kernel_space).inv(),
            old(allocator).wf(),
            old(kernel_space).accounted(old(allocator)),
            old(pid_allocator).next() matches Some(p) ==> !old(kernel_space)@.contains_key(
                kernel_stack_vpn(p),
            ) && !old(kernel_space)@.contains_key((kernel_stack_vpn(p) + 1) as u64),
        ensures
            final(allocator).wf(),
            final(pid_allocator).wf(),
            elf_image_of(elf_data@).is_none() ==> r.is_err() && r->Err_0 == KernelError::BadElf,
            elf_image_of(elf_data@) matches Some(image) ==> {
                &&& !image_ok(image, elf_data@.len() as int) ==> r.is_err() && r->Err_0
                    == KernelError::BadElf
                &&& image_ok(image, elf_data@.len() as int) && !layout_ok(full_plan(image))
                    ==> r.is_err() && r->Err_0 == KernelError::Overlap
                &&& image_ok(image, elf_data@.len() as int) && layout_ok(full_plan(image)) ==> {
                    &&& old(pid_allocator).next().is_none() ==> r.is_err() && r->Err_0
                        == KernelError::OutOfPids
                    &&& old(pid_allocator).next().is_some() ==> (r.is_ok() || r->Err_0
                        == KernelError::OutOfFrames)
                    &&& old(pid_allocator).next() matches Some(p) ==> (r.is_ok() <==> old(
                        allocator,
                    ).free_count() >= kernel_stack_demand(old(kernel_space).lacks(), p)
                        + image_demand(image))
                }
                &&& r matches Ok((task, _)) ==> {
                    &&& is_image_of(&task.inner.memory_set, image, elf_data@, strampoline)
                    &&& task.inner.heap_bottom == heap_bottom_of(image)
                    &&& task.inner.trap_cx.sepc == image.entry_point
                }
            },
            r.is_err() && r->Err_0 != KernelError::OutOfFrames ==> *final(allocator) == *old(
                allocator,
            ) && *final(pid_allocator) == *old(pid_allocator) && *final(kernel_space) == *old(
                kernel_space,
            ),
            r matches Ok((task, mid)) ==> {
                let c = task.pid.0;
                &&& old(pid_allocator).next() == Some(c)
                &&& c < PID_LIMIT
                &&& !old(pid_allocator).is_allocated(c)
                &&& forall|pid: usize|
                    final(pid_allocator).is_allocated(pid) <==> (old(pid_allocator).is_allocated(pid)
                        || pid == c)
                &&& mid@.wf()
                &&& final(kernel_space).inv()
                &&& final(kernel_space).accounted(&mid@)
                &&& foreign(final(kernel_space).table(), &mid@) == foreign(
                    old(kernel_space).table(),
                    old(allocator),
                )
                &&& final(kernel_space).table().root() == old(kernel_space).table().root()
                &&& final(kernel_space).lacks() == lacks_after(
                    old(kernel_space).lacks(),
                    kernel_stack_vpn(c) as int,
                    kernel_stack_vpn(c) + 2,
                )
                &&& final(kernel_space).areas().contains_key(kernel_stack_vpn(c))
                &&& final(kernel_space).areas()[kernel_stack_vpn(c)].end() == kernel_stack_vpn(c) + 2
                &&& MemorySet::pushed(
                    old(kernel_space),
                    final(kernel_space),
                    final(kernel_space).areas()[kernel_stack_vpn(c)],
                    None,
                )
                &&& task.wf()
                &&& task.inner.memory_set.accounted(final(allocator))
                &&& foreign(task.inner.memory_set.table(), final(allocator)) == mid@.allocated()
                &&& task.inner.task_status == TaskStatus::Ready
                &&& task.inner.task_cx.ra == entries.trap_return
                &&& task.inner.task_cx.sp == spec_kernel_stack_position(c).1
                &&& task.inner.program_brk == task.inner.heap_bottom
                &&& task.inner.parent.is_none()
                &&& task.inner.children@.len() == 0
                &&& task.inner.xcode == 0
                &&& task.inner.trap_cx.regs@ == Seq::new(32, |i: int| 0u64).update(
                    REG_SP as int,
                    TRAP_CONTEXT,
                )
                &&& task.inner.trap_cx.sstatus == sstatus & !SSTATUS_SPP
                &&& task.inner.trap_cx.kernel_satp == 0x8000_0000_0000_0000 + old(
                    kernel_space,
                ).table().root()
                &&& task.inner.trap_cx.kernel_sp == spec_kernel_stack_position(c).1
                &&& task.inner.trap_cx.trap_handler == entries.trap_handler
            },
    {
        match crate::mm::user_space::check_elf(elf_data) {
            Ok(()) => {},
            Err(e) => {
                return Err(KernelError::from_load(e));
            },
        }
        let pid = match pid_alloc(pid_allocator) {
            Some(pid) => pid,
            None => {
                return Err(KernelError::OutOfPids);
            },
        };
        let kernel_stack = match KernelStack::new(&pid, kernel_space, allocator) {
            Ok(stack) => stack,
            Err(e) => {
                return Err(KernelError::from_mem(e));
            },
        };
        let mid = Ghost(*allocator);
        let inner = match TaskControlBlockInner::new(
            allocator,
            elf_data,
            pid.0,
            kernel_space.token(),
            entries,
            sstatus,
            strampoline,
        ) {
            Ok(inner) => inner,
            Err(e) => {
                return Err(KernelError::from_load(e));
            },
        };
        Ok((TaskControlBlock { pid, kernel_stack, inner }, mid))
    }
}


impl TaskControlBlockInner {
    /// Growing the heap by `k` bytes and shrinking it by `k` bytes again,
    /// without lazy allocation and from a heap area that ends at the break:
    /// the second move is allowed, the break is where it was, the same
    /// pages are mapped as before, and the process owns the same leaf
    /// frames with the same bytes: every frame that the growth took for a
    /// page is given back. The directory pages that it added stay with the
    /// page table.
    pub proof fn lemma_brk_round_trip(
        s0: &TaskControlBlockInner,
        s1: &TaskControlBlockInner,
        s2: &TaskControlBlockInner,
        k: i32,
    )
        requires
            k >= 0,
            s0.wf(),
            s0.task_status != TaskStatus::Zombie,
            s0.memory_set.areas().contains_key(s0.heap_key()) ==> s0.memory_set.areas()[s0.heap_key()].end()
                == page_after(s0.program_brk as int),
            s0.brk_allowed(k, false),
            Self::brk_moved(s0, s1, k, false),
            s1.wf(),
            Self::brk_moved(s1, s2, (-k) as i32, false),
        ensures
            s1.brk_allowed((-k) as i32, false),
            s2.program_brk == s0.program_brk,
            s2.memory_set@ == s0.memory_set@,
            s2.memory_set.areas() == s0.memory_set.areas(),
            s2.memory_set.frames() == s0.memory_set.frames(),
    {
        let key = s0.heap_key();
        let a = s0.memory_set.areas()[key];
        let e0 = page_after(s0.program_brk as int) as u64;
        let e1 = page_after(s0.program_brk + k) as u64;
        let a1 = s1.memory_set.areas()[key];
        let t0 = s0.memory_set.table();
        let t1 = s1.memory_set.table();
        let t2 = s2.memory_set.table();
        assert(a.wf());
        assert(a1 == a.with_end(e1));
        assert(s1.heap_key() == key);
        assert(s1.program_brk + (-k) == s0.program_brk);
        assert(!(e0 <= trap_context_vpn() < e1)) by {
            assert(s0.memory_set@.contains_key(trap_context_vpn()));
        }
        if k == 0 {
            assert(e1 == e0);
        }
        assert(s1.brk_allowed((-k) as i32, false));
        assert(a1.with_end(e0) == a);
        assert(s2.memory_set.areas() =~= s0.memory_set.areas());
        // The pages.
        assert(s2.memory_set@ =~= s0.memory_set@) by {
            assert forall|v: u64| s2.memory_set@.contains_key(v) == s0.memory_set@.contains_key(v) by {
                if e0 <= v < e1 {
                    assert(!t2@.contains_key(v));
                } else {
                    assert(t2@.contains_key(v) == t1@.contains_key(v));
                    assert(t1@.contains_key(v) == t0@.contains_key(v));
                }
            }
            assert forall|v: u64| s0.memory_set@.contains_key(v) implies s2.memory_set@[v]
                == s0.memory_set@[v] by {
                assert(!(e0 <= v < e1));
                assert(t1@.contains_key(v));
                assert(t1@[v] == t0@[v]);
                assert(t2@[v] == t1@[v]);
            }
        }
        // The frames.
        assert(s2.memory_set.frames() =~= s0.memory_set.frames()) by {
            if a.map_type() == MapType::Framed {
                let image = crate::mm::memory_set::frame_image(t1, e0 as int, e1 as int);
                assert forall|p: u64| image.contains(p) implies !t0.frames().contains_key(p) by {
                    let v = choose|v: u64|
                        e0 <= v < e1 && t1@.contains_key(v) && (#[trigger] t1@[v]).spec_ppn().0 == p;
                }
                assert(t2.frames().dom() =~= t0.frames().dom());
            }
            assert forall|p: u64| t0.frames().contains_key(p) implies t2.frames()[p]
                == t0.frames()[p] by {
                assert(t1.frames().contains_key(p) && t1.frames()[p] == t0.frames()[p]);
                assert(t2.frames().contains_key(p));
            }
        }
    }
}

} // verus!
