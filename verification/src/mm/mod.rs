//! Memory management: frames, page tables and address spaces.

pub mod address;
pub mod demand;
pub mod elf;
pub mod flags;
pub mod frame_allocator;
pub mod kernel_space;
pub mod memory_set;
pub mod page_table;
pub mod user_space;

use vstd::prelude::*;
use crate::config::MEMORY_END;
use crate::mm::frame_allocator::{frame_allocator_test, init_frame_allocator, StackFrameAllocator};
use crate::mm::demand::{lacks_after, lemma_frames_needed_bound, tables_needed};
use crate::mm::kernel_space::{kernel_demand, kernel_plan, remap_test, sections_protected};
use crate::mm::memory_set::{
    foreign, trampoline_lacks, trampoline_vpn, trap_context_vpn, MapArea, MemorySet,
};
use crate::mm::page_table::{pte_bits, MemError, PageTableEntry};
use crate::mm::user_space::{areas_of, lacks_after_plan};
use crate::vars::KernelLayout;

verus! {

/// Sets memory management up for the kernel image laid out as `layout`:
/// the frame allocator over all memory behind the image, and the kernel's
/// own address space. The caller is to switch the hart to that address space.
pub fn init(layout: &KernelLayout) -> (r: Result<(StackFrameAllocator, MemorySet), MemError>)
    requires
        layout.wf(),
    ensures
        r.is_ok() <==> MEMORY_END / 4096 - (layout.ekernel + 4095) / 4096 >= kernel_demand(*layout),
        r matches Ok((allocator, kernel_space)) ==> {
            &&& allocator.wf()
            &&& allocator.free_count() == MEMORY_END / 4096 - (layout.ekernel + 4095) / 4096
                - kernel_demand(*layout)
            &&& kernel_space.lacks() == lacks_after_plan(trampoline_lacks(), kernel_plan(*layout))
            &&& kernel_space.inv()
            &&& kernel_space.accounted(&allocator)
            &&& foreign(kernel_space.table(), &allocator) == Set::<u64>::empty()
            &&& kernel_space.frames() == Map::<u64, Seq<u8>>::empty()
            &&& kernel_space.has_trampoline()
            &&& kernel_space@[trampoline_vpn()] == (PageTableEntry {
                bits: pte_bits(((layout.strampoline % 0x100_0000_0000_0000) / 4096) as u64, 11),
            })
            &&& kernel_space.areas() == areas_of(kernel_plan(*layout))
            &&& forall|j: int, v: u64|
                0 <= j < 5 && #[trigger] kernel_plan(*layout)[j].area.contains(v)
                    ==> kernel_space@.contains_key(v)
            &&& forall|v: u64|
                MEMORY_END / 4096 <= v && v != trampoline_vpn() ==> !(
                #[trigger] kernel_space@.contains_key(v))
            &&& forall|k: u64|
                MEMORY_END / 4096 < k ==> !(#[trigger] kernel_space.areas().contains_key(k))
        },
{
    let mut allocator = StackFrameAllocator::new();
    init_frame_allocator(&mut allocator, layout.ekernel);
    let kernel_space = match MemorySet::new_kernel(&mut allocator, layout) {
        Ok(ms) => ms,
        Err(e) => {
            return Err(e);
        },
    };
    proof {
        assert(foreign(kernel_space.table(), &allocator) =~= Set::<u64>::empty());
    }
    Ok((allocator, kernel_space))
}

/// Tests memory management on the running kernel: the frame allocator, then
/// the kernel's address space. Returns whether the sections of the kernel
/// are protected as they should be.
pub fn test(
    kernel_space: &mut MemorySet,
    allocator: &mut StackFrameAllocator,
    layout: &KernelLayout,
) -> (r: Result<bool, MemError>)
    requires
        old(kernel_space).inv(),
        old(allocator).wf(),
        old(kernel_space).accounted(old(allocator)),
        old(allocator).free_count() >= 5,
        !old(kernel_space)@.contains_key((trap_context_vpn() - 1) as u64),
    ensures
        final(allocator).wf(),
        r.is_ok(),
        r matches Ok(passed) ==> {
            &&& passed == sections_protected(old(kernel_space), *layout)
            &&& final(allocator).free_count() == old(allocator).free_count() - tables_needed(
                old(kernel_space).lacks(),
                trap_context_vpn() - 1,
                trap_context_vpn() as int,
            )
            &&& final(kernel_space).lacks() == lacks_after(
                old(kernel_space).lacks(),
                trap_context_vpn() - 1,
                trap_context_vpn() as int,
            )
            &&& final(kernel_space).inv()
            &&& final(kernel_space).accounted(final(allocator))
            &&& foreign(final(kernel_space).table(), final(allocator)) == foreign(
                old(kernel_space).table(),
                old(allocator),
            )
            &&& final(kernel_space)@ == old(kernel_space)@
            &&& final(kernel_space).frames() == old(kernel_space).frames()
            &&& final(kernel_space).areas() == old(kernel_space).areas().remove(
                (trap_context_vpn() - 1) as u64,
            )
        },
{
    frame_allocator_test(allocator);
    proof {
        kernel_space.table().lemma_lacks_bound();
        lemma_frames_needed_bound(
            kernel_space.lacks(),
            true,
            trap_context_vpn() - 1,
            trap_context_vpn() as int,
        );
        assert forall|p: u64| #[trigger]
            kernel_space.table().owned().contains(p) implies allocator.is_allocated(p) by {
            assert(old(allocator).is_allocated(p));
            assert(old(allocator).allocated().contains(p));
            assert(allocator.allocated().contains(p));
        }
    }
    remap_test(kernel_space, allocator, layout)
}

} // verus!
