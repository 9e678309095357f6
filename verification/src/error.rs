//! What can go wrong in the kernel as a whole.

use vstd::prelude::*;
use crate::mm::page_table::MemError;
use crate::mm::user_space::LoadError;

verus! {

/// Why the kernel could not carry out what it was asked to do.
///
/// Running out of frames is fatal: an operation that ends with
/// `OutOfFrames` may have done part of its work, and the kernel, the address
/// space or the page table it worked on is not to be used afterwards. Every
/// other error leaves processes, memory and allocators as they were.
#[derive(Clone, Copy, Debug, PartialEq, Eq, Structural)]
pub enum KernelError {
    /// The frame allocator has fewer frames left than the operation takes.
    OutOfFrames,
    /// All process identifiers are in use.
    OutOfPids,
    /// A program is no ELF file that can be loaded.
    BadElf,
    /// The areas of a program share a page.
    Overlap,
    /// No program has the name asked for.
    NoSuchApp,
}

impl KernelError {
    pub fn from_mem(e: MemError) -> (r: Self)
        ensures
            r == KernelError::OutOfFrames,
    {
        match e {
            MemError::OutOfFrames => KernelError::OutOfFrames,
        }
    }

    pub fn from_load(e: LoadError) -> (r: Self)
        ensures
            r == (match e {
                LoadError::BadElf => KernelError::BadElf,
                LoadError::Overlap => KernelError::Overlap,
                LoadError::OutOfFrames => KernelError::OutOfFrames,
            }),
    {
        match e {
            LoadError::BadElf => KernelError::BadElf,
            LoadError::Overlap => KernelError::Overlap,
            LoadError::OutOfFrames => KernelError::OutOfFrames,
        }
    }
}

} // verus!
