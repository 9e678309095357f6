//! Constants of the kernel: stack sizes, the page geometry of SV39 and the
//! fixed virtual addresses every address space shares.

use vstd::prelude::*;

verus! {

/// Bytes of user stack given to each process.
pub const USER_STACK_SIZE: u64 = 0x2000;

/// Bytes of kernel stack given to each process.
pub const KERNEL_STACK_SIZE: u64 = 0x2000;

/// Timer ticks per second.
pub const CLOCK_FREQ: u64 = 12500000;

/// Bytes reserved for the kernel's own dynamic allocator.
pub const KERNEL_HEAP_SIZE: u64 = 0x30_0000;

pub const PAGE_SIZE_BITS: u64 = 12;

/// Bytes in one page.
pub const PAGE_SIZE: u64 = 4096;

/// Width of the flag field of a page-table entry.
pub const PTE_FLAGS_BITS: u64 = 10;

/// Entries in one page-table page.
pub const PTES_PER_PAGE: u64 = 512;

/// Width of a physical page number.
pub const PPN_WIDTH: u64 = 44;

/// Width of a virtual page number (three indexes of nine bits).
pub const VPN_WIDTH: u64 = 27;

/// One past the largest physical page number.
pub const PPN_LIMIT: u64 = 0x1000_0000_0000;

/// One past the largest virtual page number.
pub const VPN_LIMIT: u64 = 0x800_0000;

/// One past the largest virtual address (39 bits).
pub const VA_LIMIT: u64 = 0x80_0000_0000;

/// One past the largest physical address (56 bits).
pub const PA_LIMIT: u64 = 0x100_0000_0000_0000;

/// Virtual address of the trampoline page: the highest page of every address space.
pub const TRAMPOLINE: u64 = 0xffff_ffff_ffff_f000;

/// Virtual address of the trap-context page, just below the trampoline.
pub const TRAP_CONTEXT: u64 = 0xffff_ffff_ffff_e000;

/// End of physical memory.
pub const MEMORY_END: u64 = 0x8800_0000;

/// Number of harts the kernel keeps a scheduler for.
pub const MAX_CPU_NUM: usize = 4;

/// Process identifiers are below this bound, so that every kernel stack lies
/// in the upper half of the kernel's address space.
pub const PID_LIMIT: usize = 0x100_0000;

} // verus!
