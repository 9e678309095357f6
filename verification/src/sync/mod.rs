//! Locks.

pub mod lock;
