//! Process identifiers and the kernel stack that belongs to each.

use vstd::prelude::*;
use crate::config::{KERNEL_STACK_SIZE, PAGE_SIZE, PID_LIMIT, TRAMPOLINE};
use crate::mm::address::VirtAddr;
use crate::mm::demand::{frames_needed, lacks_after};
use crate::mm::flags::{MapPermission, FLAG_R, FLAG_W};
use crate::mm::frame_allocator::StackFrameAllocator;
use crate::mm::memory_set::{foreign, trampoline_vpn, MapArea, MapType, MemorySet};
use crate::mm::page_table::MemError;

verus! {

/// The identity of a process. Whoever holds the handle gives the identifier
/// back to the allocator when the process is gone.
#[derive(Debug)]
pub struct PidHandle(pub usize);

/// Hands out identifiers from 0 upwards; identifiers given back are kept on
/// a stack and reused first.
pub struct PidAllocator {
    current: usize,
    recycled: Vec<usize>,
}

impl PidAllocator {
    /// First identifier that was never handed out.
    pub closed spec fn current(&self) -> int {
        self.current as int
    }

    /// Identifiers that were given back, oldest first.
    pub closed spec fn recycled(&self) -> Seq<usize> {
        self.recycled@
    }

    pub open spec fn wf(&self) -> bool {
        &&& self.current() <= PID_LIMIT
        &&& self.recycled().no_duplicates()
        &&& forall|i: int| 0 <= i < self.recycled().len() ==> #[trigger] self.recycled()[i] < self.current()
    }

    /// Whether identifier `pid` is handed out at present.
    pub open spec fn is_allocated(&self, pid: usize) -> bool {
        pid < self.current() && !self.recycled().contains(pid)
    }

    /// The identifier that the next `allocate` hands out, if any is left.
    pub open spec fn next(&self) -> Option<usize> {
        if self.recycled().len() > 0 {
            Some(self.recycled().last())
        } else if self.current() < PID_LIMIT {
            Some(self.current() as usize)
        } else {
            None
        }
    }

    pub fn new() -> (r: Self)
        ensures
            r.wf(),
            r.current() == 0,
            r.recycled().len() == 0,
            forall|pid: usize| !r.is_allocated(pid),
    {
        PidAllocator { current: 0, recycled: Vec::new() }
    }

    /// Hands out the most recently recycled identifier, or else the next
    /// fresh one; `None` when the identifiers are used up.
    pub fn allocate(&mut self) -> (r: Option<PidHandle>)
        requires
            old(self).wf(),
        ensures
            final(self).wf(),
            r.is_none() <==> old(self).next().is_none(),
            match r {
                Some(handle) => {
                    &&& old(self).next() == Some(handle.0)
                    &&& handle.0 < PID_LIMIT
                    &&& !old(self).is_allocated(handle.0)
                    &&& forall|pid: usize|
                        final(self).is_allocated(pid) <==> (old(self).is_allocated(pid) || pid
                            == handle.0)
                    &&& if old(self).recycled().len() > 0 {
                        &&& final(self).recycled() == old(self).recycled().drop_last()
                        &&& final(self).current() == old(self).current()
                    } else {
                        &&& final(self).recycled() == old(self).recycled()
                        &&& final(self).current() == old(self).current() + 1
                    }
                },
                None => *final(self) == *old(self),
            },
    {
        let ghost before = *self;
        if self.recycled.len() > 0 {
            let pid = self.recycled.pop().unwrap();
            proof {
                let n = before.recycled().len() as int;
                assert(before.recycled()[n - 1] == pid);
                assert(self.recycled() == before.recycled().take(n - 1));
                assert(self.recycled() =~= before.recycled().drop_last());
                assert(!self.recycled().contains(pid)) by {
                    if self.recycled().contains(pid) {
                        let j = choose|j: int| 0 <= j < n - 1 && self.recycled()[j] == pid;
                        assert(before.recycled()[j] == pid);
                    }
                }
                assert forall|p: usize|
                    self.is_allocated(p) <==> (before.is_allocated(p) || p == pid) by {
                    if p != pid {
                        if before.recycled().contains(p) {
                            let j = choose|j: int| 0 <= j < n && before.recycled()[j] == p;
                            assert(self.recycled()[j] == p);
                        }
                        if self.recycled().contains(p) {
                            let j = choose|j: int| 0 <= j < n - 1 && self.recycled()[j] == p;
                            assert(before.recycled()[j] == p);
                        }
                    }
                }
            }
            Some(PidHandle(pid))
        } else if self.current >= PID_LIMIT {
            None
        } else {
            let ret = PidHandle(self.current);
            self.current += 1;
            Some(ret)
        }
    }

    /// Takes back identifier `pid`, which must be handed out at present.
    pub fn dealloc(&mut self, pid: usize)
        requires
            old(self).wf(),
            old(self).is_allocated(pid),
        ensures
            final(self).wf(),
            final(self).current() == old(self).current(),
            final(self).recycled() == old(self).recycled().push(pid),
            forall|p: usize|
                final(self).is_allocated(p) <==> (old(self).is_allocated(p) && p != pid),
    {
        let ghost before = *self;
        self.recycled.push(pid);
        proof {
            let n = before.recycled().len() as int;
            assert forall|p: usize|
                self.is_allocated(p) <==> (before.is_allocated(p) && p != pid) by {
                if self.recycled().contains(p) && p != pid {
                    let j = choose|j: int| 0 <= j < n + 1 && self.recycled()[j] == p;
                    assert(before.recycled()[j] == p);
                }
                if before.recycled().contains(p) {
                    let j = choose|j: int| 0 <= j < n && before.recycled()[j] == p;
                    assert(self.recycled()[j] == p);
                }
                assert(self.recycled()[n] == pid);
            }
        }
    }
}

/// Allocates a process identifier; `None` when they are used up.
pub fn pid_alloc(allocator: &mut PidAllocator) -> (r: Option<PidHandle>)
    requires
        old(allocator).wf(),
    ensures
        final(allocator).wf(),
        r.is_none() <==> old(allocator).next().is_none(),
        match r {
            Some(handle) => {
                &&& old(allocator).next() == Some(handle.0)
                &&& handle.0 < PID_LIMIT
                &&& !old(allocator).is_allocated(handle.0)
                &&& forall|pid: usize|
                    final(allocator).is_allocated(pid) <==> (old(allocator).is_allocated(pid)
                        || pid == handle.0)
                &&& if old(allocator).recycled().len() > 0 {
                    &&& final(allocator).recycled() == old(allocator).recycled().drop_last()
                    &&& final(allocator).current() == old(allocator).current()
                } else {
                    &&& final(allocator).recycled() == old(allocator).recycled()
                    &&& final(allocator).current() == old(allocator).current() + 1
                }
            },
            None => *final(allocator) == *old(allocator),
        },
{
    allocator.allocate()
}

/// Bottom and top of the kernel stack of process `app_id` as 64-bit
/// addresses: the stacks lie one below the other under the trampoline, with
/// an unmapped guard page above each, so that one lies between the
/// trampoline and the first stack and between any two stacks.
pub open spec fn spec_kernel_stack_position(app_id: usize) -> (u64, u64) {
    let top = TRAMPOLINE - PAGE_SIZE - app_id * (KERNEL_STACK_SIZE + PAGE_SIZE);
    ((top - KERNEL_STACK_SIZE) as u64, top as u64)
}

/// Number of the first page of the kernel stack of process `pid`.
pub open spec fn kernel_stack_vpn(pid: usize) -> u64 {
    (trampoline_vpn() - 3 - 3 * pid) as u64
}

/// Each kernel stack is two whole pages below the trampoline with a page
/// to spare above it, and the stacks of two processes leave at least one
/// page between them.
pub proof fn lemma_kernel_stacks_guarded(a: usize, b: usize)
    requires
        a < PID_LIMIT,
        b < PID_LIMIT,
    ensures
        spec_kernel_stack_position(a).1 - spec_kernel_stack_position(a).0 == KERNEL_STACK_SIZE,
        spec_kernel_stack_position(a).0 % 4096 == 0,
        spec_kernel_stack_position(a).1 % 4096 == 0,
        spec_kernel_stack_position(a).1 + PAGE_SIZE <= TRAMPOLINE,
        kernel_stack_vpn(a) + 2 < trampoline_vpn(),
        a < b ==> spec_kernel_stack_position(b).1 + PAGE_SIZE <= spec_kernel_stack_position(a).0,
        a < b ==> kernel_stack_vpn(b) + 2 < kernel_stack_vpn(a),
{
}

#[verifier::when_used_as_spec(spec_kernel_stack_position)]
pub fn kernel_stack_position(app_id: usize) -> (r: (u64, u64))
    requires
        app_id < PID_LIMIT,
    ensures
        r == spec_kernel_stack_position(app_id),
        r.0 % 0x80_0000_0000 / 4096 == kernel_stack_vpn(app_id),
        (r.1 % 0x80_0000_0000 + 4095) / 4096 == kernel_stack_vpn(app_id) + 2,
{
    let top: u64 = TRAMPOLINE - PAGE_SIZE - (app_id as u64) * 0x3000;
    let bottom: u64 = top - KERNEL_STACK_SIZE;
    proof {
        let low = 0x7f_ffff_e000 - app_id * 0x3000;
        assert(top == 0xffff_ff80_0000_0000 + low);
        assert(0x2000 <= low < 0x80_0000_0000);
        assert(top as int % 0x80_0000_0000 == low);
        assert((bottom as int) % 0x80_0000_0000 == low - 0x2000);
        assert(low == (0x7ff_fffe - 3 * app_id) * 4096);
    }
    (bottom, top)
}

/// The frames that the kernel stack of process `pid` takes where the walks
/// of the kernel's address space lack `lacks`.
pub open spec fn kernel_stack_demand(lacks: Map<int, nat>, pid: usize) -> nat {
    frames_needed(lacks, true, kernel_stack_vpn(pid) as int, kernel_stack_vpn(pid) + 2)
}

/// The kernel stack of one process: two pages of the kernel's address space.
#[derive(Debug)]
pub struct KernelStack {
    pub pid: usize,
}

impl KernelStack {
    /// Maps the kernel stack of the process with handle `pid_handle` in the
    /// kernel's address space, readable and writable.
    pub fn new(
        pid_handle: &PidHandle,
        kernel_space: &mut MemorySet,
        allocator: &mut StackFrameAllocator,
    ) -> (r: Result<Self, MemError>)
        requires
            pid_handle.0 < PID_LIMIT,
            old(kernel_space).inv(),
            old(allocator).wf(),
            old(kernel_space).accounted(old(allocator)),
            !old(kernel_space)@.contains_key(kernel_stack_vpn(pid_handle.0)),
            !old(kernel_space)@.contains_key((kernel_stack_vpn(pid_handle.0) + 1) as u64),
        ensures
            final(allocator).wf(),
            r.is_ok() <==> old(allocator).free_count() >= kernel_stack_demand(
                old(kernel_space).lacks(),
                pid_handle.0,
            ),
            r matches Ok(stack) ==> {
                let k = kernel_stack_vpn(pid_handle.0);
                &&& stack.pid == pid_handle.0
                &&& final(allocator).free_count() == old(allocator).free_count()
                    - kernel_stack_demand(old(kernel_space).lacks(), pid_handle.0)
                &&& final(kernel_space).lacks() == lacks_after(
                    old(kernel_space).lacks(),
                    k as int,
                    k + 2,
                )
                &&& final(kernel_space).inv()
                &&& final(kernel_space).accounted(final(allocator))
                &&& final(kernel_space).table().root() == old(kernel_space).table().root()
                &&& foreign(final(kernel_space).table(), final(allocator)) == foreign(
                    old(kernel_space).table(),
                    old(allocator),
                )
                &&& final(kernel_space).areas().contains_key(k)
                &&& final(kernel_space).areas()[k].end() == k + 2
                &&& final(kernel_space).areas()[k].map_type() == MapType::Framed
                &&& final(kernel_space).areas()[k].perm().bits == 6
                &&& MemorySet::pushed(
                    old(kernel_space),
                    final(kernel_space),
                    final(kernel_space).areas()[k],
                    None,
                )
            },
    {
        let pid = pid_handle.0;
        let (kernel_stack_bottom, kernel_stack_top) = kernel_stack_position(pid);
        proof {
            let k = kernel_stack_vpn(pid);
            if old(kernel_space).areas().contains_key(k) {
                let a = old(kernel_space).areas()[k];
                if a.start() < a.end() {
                    assert(a.contains(k));
                }
            }
        }
        match kernel_space.insert_framed_area(
            allocator,
            VirtAddr::from(kernel_stack_bottom),
            VirtAddr::from(kernel_stack_top),
            MapPermission { bits: FLAG_R + FLAG_W },
        ) {
            Ok(()) => {},
            Err(e) => {
                return Err(e);
            },
        }
        Ok(KernelStack { pid })
    }

    /// Address just above the kernel stack.
    pub fn get_top(&self) -> (r: u64)
        requires
            self.pid < PID_LIMIT,
        ensures
            r == spec_kernel_stack_position(self.pid).1,
    {
        kernel_stack_position(self.pid).1
    }

    /// Unmaps the kernel stack and gives its frames back.
    pub fn release(self, kernel_space: &mut MemorySet, allocator: &mut StackFrameAllocator)
        requires
            self.pid < PID_LIMIT,
            old(kernel_space).inv(),
            old(allocator).wf(),
            old(kernel_space).accounted(old(allocator)),
        ensures
            final(kernel_space).inv(),
            final(allocator).wf(),
            final(kernel_space).accounted(final(allocator)),
            final(kernel_space).table().root() == old(kernel_space).table().root(),
            final(kernel_space).lacks() == old(kernel_space).lacks(),
            foreign(final(kernel_space).table(), final(allocator)) == foreign(
                old(kernel_space).table(),
                old(allocator),
            ),
            final(kernel_space).areas() == old(kernel_space).areas().remove(
                kernel_stack_vpn(self.pid),
            ),
            old(kernel_space).areas().contains_key(kernel_stack_vpn(self.pid)) ==> {
                let a = old(kernel_space).areas()[kernel_stack_vpn(self.pid)];
                crate::mm::memory_set::unmapped_range(
                    old(kernel_space).table(),
                    final(kernel_space).table(),
                    a.map_type(),
                    a.start(),
                    a.end(),
                )
            },
            !old(kernel_space).areas().contains_key(kernel_stack_vpn(self.pid)) ==> {
                &&& final(kernel_space)@ == old(kernel_space)@
                &&& final(kernel_space).frames() == old(kernel_space).frames()
            },
    {
        let (kernel_stack_bottom, _) = kernel_stack_position(self.pid);
        kernel_space.remove_area_with_start_vpn(allocator, VirtAddr::from(kernel_stack_bottom).floor());
    }
}

} // verus!
