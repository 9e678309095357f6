//! A model of a small RISC-V supervisor kernel: physical frames, SV39 page
//! tables, address spaces, processes and the scheduler, each with a
//! contract that says what it does.

pub mod common;
pub mod config;
pub mod debug;
pub mod error;
pub mod kernel;
pub mod loader;
pub mod mm;
pub mod sync;
pub mod syscall;
pub mod task;
pub mod timer;
pub mod trap;
pub mod vars;
