//! The causes of a trap, decoded from the `scause` register.
//!
//! The numbering of exceptions and interrupts is that of the `riscv` crate.

use vstd::prelude::*;

verus! {

/// A synchronous cause of a trap.
#[derive(Clone, Copy, Debug, PartialEq, Eq, Structural)]
pub enum ExceptionKind {
    InstructionMisaligned,
    InstructionFault,
    IllegalInstruction,
    Breakpoint,
    LoadFault,
    StoreMisaligned,
    StoreFault,
    UserEnvCall,
    InstructionPageFault,
    LoadPageFault,
    StorePageFault,
    Unknown,
}

/// An asynchronous cause of a trap.
#[derive(Clone, Copy, Debug, PartialEq, Eq, Structural)]
pub enum InterruptKind {
    UserSoft,
    SupervisorSoft,
    UserTimer,
    SupervisorTimer,
    UserExternal,
    SupervisorExternal,
    Unknown,
}

/// Why a hart trapped.
#[derive(Clone, Copy, Debug, PartialEq, Eq, Structural)]
pub enum Trap {
    Interrupt(InterruptKind),
    Exception(ExceptionKind),
}

/// The exception with number `nr`.
pub open spec fn exception_of(nr: u64) -> ExceptionKind {
    if nr == 0 {
        ExceptionKind::InstructionMisaligned
    } else if nr == 1 {
        ExceptionKind::InstructionFault
    } else if nr == 2 {
        ExceptionKind::IllegalInstruction
    } else if nr == 3 {
        ExceptionKind::Breakpoint
    } else if nr == 5 {
        ExceptionKind::LoadFault
    } else if nr == 6 {
        ExceptionKind::StoreMisaligned
    } else if nr == 7 {
        ExceptionKind::StoreFault
    } else if nr == 8 {
        ExceptionKind::UserEnvCall
    } else if nr == 12 {
        ExceptionKind::InstructionPageFault
    } else if nr == 13 {
        ExceptionKind::LoadPageFault
    } else if nr == 15 {
        ExceptionKind::StorePageFault
    } else {
        ExceptionKind::Unknown
    }
}

/// The interrupt with number `nr`.
pub open spec fn interrupt_of(nr: u64) -> InterruptKind {
    if nr == 0 {
        InterruptKind::UserSoft
    } else if nr == 1 {
        InterruptKind::SupervisorSoft
    } else if nr == 4 {
        InterruptKind::UserTimer
    } else if nr == 5 {
        InterruptKind::SupervisorTimer
    } else if nr == 8 {
        InterruptKind::UserExternal
    } else if nr == 9 {
        InterruptKind::SupervisorExternal
    } else {
        InterruptKind::Unknown
    }
}

/// `Exception::from` of the `riscv` crate, whose table of numbers
/// `exception_of` repeats; the variant it returns is handed on as the
/// variant of the same name.
#[verifier::external_body]
fn exception_from(nr: u64) -> (r: ExceptionKind)
    requires
        nr <= 0xffff,
    ensures
        r == exception_of(nr),
{
    match riscv::register::scause::Exception::from(nr as usize) {
        riscv::register::scause::Exception::InstructionMisaligned => ExceptionKind::InstructionMisaligned,
        riscv::register::scause::Exception::InstructionFault => ExceptionKind::InstructionFault,
        riscv::register::scause::Exception::IllegalInstruction => ExceptionKind::IllegalInstruction,
        riscv::register::scause::Exception::Breakpoint => ExceptionKind::Breakpoint,
        riscv::register::scause::Exception::LoadFault => ExceptionKind::LoadFault,
        riscv::register::scause::Exception::StoreMisaligned => ExceptionKind::StoreMisaligned,
        riscv::register::scause::Exception::StoreFault => ExceptionKind::StoreFault,
        riscv::register::scause::Exception::UserEnvCall => ExceptionKind::UserEnvCall,
        riscv::register::scause::Exception::InstructionPageFault => ExceptionKind::InstructionPageFault,
        riscv::register::scause::Exception::LoadPageFault => ExceptionKind::LoadPageFault,
        riscv::register::scause::Exception::StorePageFault => ExceptionKind::StorePageFault,
        riscv::register::scause::Exception::Unknown => ExceptionKind::Unknown,
    }
}

/// `Interrupt::from` of the `riscv` crate, whose table of numbers
/// `interrupt_of` repeats; the variant it returns is handed on as the
/// variant of the same name.
#[verifier::external_body]
fn interrupt_from(nr: u64) -> (r: InterruptKind)
    requires
        nr <= 0xffff,
    ensures
        r == interrupt_of(nr),
{
    match riscv::register::scause::Interrupt::from(nr as usize) {
        riscv::register::scause::Interrupt::UserSoft => InterruptKind::UserSoft,
        riscv::register::scause::Interrupt::SupervisorSoft => InterruptKind::SupervisorSoft,
        riscv::register::scause::Interrupt::UserTimer => InterruptKind::UserTimer,
        riscv::register::scause::Interrupt::SupervisorTimer => InterruptKind::SupervisorTimer,
        riscv::register::scause::Interrupt::UserExternal => InterruptKind::UserExternal,
        riscv::register::scause::Interrupt::SupervisorExternal => InterruptKind::SupervisorExternal,
        riscv::register::scause::Interrupt::Unknown => InterruptKind::Unknown,
    }
}

/// The cause that the value `scause` of the register stands for: the top
/// bit tells an interrupt from an exception, the other bits give its number.
pub open spec fn cause_of(scause: u64) -> Trap {
    let code = if scause >= 0x8000_0000_0000_0000 {
        (scause - 0x8000_0000_0000_0000) as u64
    } else {
        scause
    };
    if scause >= 0x8000_0000_0000_0000 {
        Trap::Interrupt(interrupt_of(code))
    } else {
        Trap::Exception(exception_of(code))
    }
}

/// Decodes the value `scause` of the cause register.
pub fn cause(scause: u64) -> (r: Trap)
    ensures
        r == cause_of(scause),
{
    if scause >= 0x8000_0000_0000_0000 {
        let code = scause - 0x8000_0000_0000_0000;
        if code > 0xffff {
            Trap::Interrupt(InterruptKind::Unknown)
        } else {
            Trap::Interrupt(interrupt_from(code))
        }
    } else if scause > 0xffff {
        Trap::Exception(ExceptionKind::Unknown)
    } else {
        Trap::Exception(exception_from(scause))
    }
}

} // verus!
