//! What the kernel does on a trap, decided from its cause: the handlers
//! themselves (reading the cause registers, calling the page-fault handler,
//! sending signals, entering system calls) run outside the library and act
//! on these decisions.

use vstd::prelude::*;
use crate::kernel::trap_cause::{Exception, Interrupt, Scause};

verus! {

/// How a faulting access touched memory.
#[derive(Debug, Clone, Copy, PartialEq, Eq, Structural)]
pub enum AccessType {
    Exec,
    Read,
    Write,
}

/// The signals a trap can send to the running task.
#[derive(Debug, Clone, Copy, PartialEq, Eq, Structural)]
pub enum TrapSignal {
    SegmentationFault,
    IllegalInstruction,
    Kill,
}

/// The first step on an exception: try the page-fault handler, or send a
/// signal.
#[derive(Debug, Clone, Copy, PartialEq, Eq, Structural)]
pub enum ExceptionAction {
    PageFault(AccessType),
    Signal(TrapSignal),
}

/// What to do for a trap cause.
#[derive(Debug, Clone, Copy, PartialEq, Eq, Structural)]
pub enum TrapAction {
    /// Arm the next timer event and run the timer handler.
    Timer,
    /// Claim the interrupt from the interrupt controller and serve it.
    External,
    /// Report an interrupt that nothing serves.
    Unexpected(Interrupt),
    /// Enter the system call of the running task.
    Syscall,
    /// Handle an exception.
    Exception(Exception),
}

/// The first step for exception `exp`: page faults go to the page-fault
/// handler with their kind of access, an illegal instruction is answered
/// with its signal, every other exception kills the task.
pub open spec fn spec_exception_action(exp: Exception) -> ExceptionAction {
    match exp {
        Exception::InstructionPageFault => ExceptionAction::PageFault(AccessType::Exec),
        Exception::LoadPageFault => ExceptionAction::PageFault(AccessType::Read),
        Exception::StorePageFault => ExceptionAction::PageFault(AccessType::Write),
        Exception::IllegalInstruction => ExceptionAction::Signal(TrapSignal::IllegalInstruction),
        _ => ExceptionAction::Signal(TrapSignal::Kill),
    }
}

/// What a trap cause asks for.
pub open spec fn spec_trap_action(cause: Scause) -> TrapAction {
    match cause {
        Scause::Intr(Interrupt::Timer) => TrapAction::Timer,
        Scause::Intr(Interrupt::External) => TrapAction::External,
        Scause::Intr(intr) => TrapAction::Unexpected(intr),
        Scause::Excp(Exception::EnvCallFromUMode) => TrapAction::Syscall,
        Scause::Excp(exp) => TrapAction::Exception(exp),
    }
}

/// The first step for exception `exp`.
pub fn handle_exception(exp: Exception) -> (r: ExceptionAction)
    ensures
        r == spec_exception_action(exp),
{
    match exp {
        Exception::InstructionPageFault => ExceptionAction::PageFault(AccessType::Exec),
        Exception::LoadPageFault => ExceptionAction::PageFault(AccessType::Read),
        Exception::StorePageFault => ExceptionAction::PageFault(AccessType::Write),
        Exception::IllegalInstruction => ExceptionAction::Signal(TrapSignal::IllegalInstruction),
        _ => ExceptionAction::Signal(TrapSignal::Kill),
    }
}

/// The signal after the page-fault handler has run: none when it resolved
/// the fault, a segmentation fault when it did not.
pub fn after_page_fault(handled: bool) -> (r: Option<TrapSignal>)
    ensures
        handled ==> r is None,
        !handled ==> r == Some(TrapSignal::SegmentationFault),
{
    if handled {
        None
    } else {
        Some(TrapSignal::SegmentationFault)
    }
}

/// What to do for the trap cause register's value `bits`.
pub fn handle_scause(bits: u64) -> (r: TrapAction)
    ensures
        r == spec_trap_action(crate::kernel::trap_cause::spec_scause(bits)),
{
    let cause = Scause::from_bits(bits);
    match cause {
        Scause::Intr(Interrupt::Timer) => TrapAction::Timer,
        Scause::Intr(Interrupt::External) => TrapAction::External,
        Scause::Intr(intr) => TrapAction::Unexpected(intr),
        Scause::Excp(Exception::EnvCallFromUMode) => TrapAction::Syscall,
        Scause::Excp(exp) => TrapAction::Exception(exp),
    }
}

/// Whether a claimed interrupt is to be completed: every interrupt but the
/// empty claim 0.
pub fn should_complete(irq: u32) -> (r: bool)
    ensures
        r == (irq != 0),
{
    irq != 0
}

/// Where a task resumes after a system call: past the 4-byte `ecall`
/// instruction.
pub fn syscall_return_pc(sepc: u64) -> (r: u64)
    requires
        sepc + 4 <= u64::MAX,
    ensures
        r == sepc + 4,
{
    sepc + 4
}

} // verus!
