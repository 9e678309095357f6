//! The addresses that lay out the kernel image in physical memory.

use vstd::prelude::*;

verus! {

/// Where the sections of the kernel image begin and end. The kernel runs
/// with these addresses mapped to themselves.
#[derive(Clone, Copy, Debug, PartialEq, Eq, Structural)]
pub struct KernelLayout {
    pub stext: u64,
    pub etext: u64,
    pub srodata: u64,
    pub erodata: u64,
    pub sdata: u64,
    pub edata: u64,
    /// Start of `.bss`, the boot stack included.
    pub sbss_with_stack: u64,
    pub ebss: u64,
    /// End of the kernel image: the frames to allocate start here.
    pub ekernel: u64,
    /// Address of the trampoline code.
    pub strampoline: u64,
}

/// The addresses of the kernel's entry points, as user programs and
/// context switches need them.
#[derive(Clone, Copy, Debug, PartialEq, Eq, Structural)]
pub struct KernelEntries {
    /// Where a trap from user mode enters the kernel.
    pub trap_handler: u64,
    /// Where the kernel leaves for user mode.
    pub trap_return: u64,
    /// Where a freshly forked process starts in the kernel.
    pub fork_ret: u64,
}

} // verus!
