//! Why the processor entered the kernel.

use riscv::interrupt::supervisor::{Exception, Interrupt};
use riscv::interrupt::Trap;
use riscv::register::scause::Scause;
use riscv::{ExceptionNumber, InterruptNumber};
use vstd::prelude::*;

verus! {

/// The exceptions that the kernel tells apart.
#[derive(Copy, Clone, PartialEq, Eq, Structural, Debug)]
pub enum ExceptionKind {
    UserEnvCall,
    StoreFault,
    StorePageFault,
    InstructionFault,
    InstructionPageFault,
    LoadFault,
    LoadPageFault,
    IllegalInstruction,
    Other,
}

/// Why the processor entered the kernel.
#[derive(Copy, Clone, PartialEq, Eq, Structural, Debug)]
pub enum TrapCause {
    Exception(ExceptionKind),
    SupervisorTimer,
    OtherInterrupt,
}

/// The exception that a number stands for.
pub open spec fn exception_of(code: int) -> ExceptionKind {
    if code == 8 {
        ExceptionKind::UserEnvCall
    } else if code == 7 {
        ExceptionKind::StoreFault
    } else if code == 15 {
        ExceptionKind::StorePageFault
    } else if code == 1 {
        ExceptionKind::InstructionFault
    } else if code == 12 {
        ExceptionKind::InstructionPageFault
    } else if code == 5 {
        ExceptionKind::LoadFault
    } else if code == 13 {
        ExceptionKind::LoadPageFault
    } else if code == 2 {
        ExceptionKind::IllegalInstruction
    } else {
        ExceptionKind::Other
    }
}

/// What the cause register says: the highest bit marks an interrupt, the others are its number or
/// that of an exception.
pub open spec fn cause_of(scause: u64) -> TrapCause {
    if scause < 0x8000_0000_0000_0000 {
        TrapCause::Exception(exception_of(scause as int))
    } else if scause - 0x8000_0000_0000_0000 == 5 {
        TrapCause::SupervisorTimer
    } else {
        TrapCause::OtherInterrupt
    }
}

/// Whether the cause register says interrupt, and the number in it. Calls
/// `riscv::register::scause::Scause::cause`, whose source splits the register into its highest bit
/// and the others; the machine is taken to have words of 64 bits.
#[verifier::external_body]
fn split_cause(scause: u64) -> (r: (bool, u64))
    ensures
        r.0 == (scause >= 0x8000_0000_0000_0000),
        r.1 == scause as int % 0x8000_0000_0000_0000,
{
    match Scause::from_bits(scause as usize).cause() {
        Trap::Interrupt(code) => (true, code as u64),
        Trap::Exception(code) => (false, code as u64),
    }
}

/// The exception that a number stands for. Calls `from_number` of
/// `riscv::interrupt::supervisor::Exception`, whose source is a table of the numbers; the machine is
/// taken to have words of 64 bits.
#[verifier::external_body]
fn exception_from_number(code: u64) -> (r: ExceptionKind)
    ensures
        r == exception_of(code as int),
{
    match Exception::from_number(code as usize) {
        Ok(Exception::UserEnvCall) => ExceptionKind::UserEnvCall,
        Ok(Exception::StoreFault) => ExceptionKind::StoreFault,
        Ok(Exception::StorePageFault) => ExceptionKind::StorePageFault,
        Ok(Exception::InstructionFault) => ExceptionKind::InstructionFault,
        Ok(Exception::InstructionPageFault) => ExceptionKind::InstructionPageFault,
        Ok(Exception::LoadFault) => ExceptionKind::LoadFault,
        Ok(Exception::LoadPageFault) => ExceptionKind::LoadPageFault,
        Ok(Exception::IllegalInstruction) => ExceptionKind::IllegalInstruction,
        _ => ExceptionKind::Other,
    }
}

/// Whether a number is that of the timer interrupt. Calls `from_number` of
/// `riscv::interrupt::supervisor::Interrupt`, whose source is a table of the numbers; the machine is
/// taken to have words of 64 bits.
#[verifier::external_body]
fn is_timer(code: u64) -> (r: bool)
    ensures
        r == (code == 5),
{
    matches!(Interrupt::from_number(code as usize), Ok(Interrupt::SupervisorTimer))
}

/// What the cause register says.
pub fn read_cause(scause: u64) -> (r: TrapCause)
    ensures
        r == cause_of(scause),
{
    let (interrupt, code) = split_cause(scause);
    if !interrupt {
        TrapCause::Exception(exception_from_number(code))
    } else if is_timer(code) {
        TrapCause::SupervisorTimer
    } else {
        TrapCause::OtherInterrupt
    }
}

} // verus!
