//! The cause of a trap (`scause`): an interrupt or an exception, with its
//! code.

use vstd::prelude::*;
use crate::text::{str_concat, str_to_string, decimal, push_decimal, ascii_to_string, ascii_chars,
    lemma_decimal_ascii};

verus! {

/// The bit of `scause` that marks an interrupt.
pub const INTERRUPT_BIT: u64 = 0x8000_0000_0000_0000;

/// An exception, by code.
#[derive(Clone, Copy, Debug, PartialEq, Eq, Structural)]
pub enum Exception {
    InstructionAddrMisalined,
    InstructionAccessFault,
    IllegalInstruction,
    BreakPoint,
    LoadAddrMisalined,
    LoadAccessFault,
    StoreAddrMisaligned,
    StoreAccessFault,
    EnvCallFromUMode,
    EnvCallFromSMode,
    InstructionPageFault,
    LoadPageFault,
    StorePageFault,
    SoftWareCheck,
    HardwareError,
    Reserved(u64),
    Custom(u64),
}

/// Whether a code is for custom use (24 to 31 and 48 to 63).
pub open spec fn is_custom_code(c: u64) -> bool {
    (24 <= c <= 31) || (48 <= c <= 63)
}

/// Whether a code names a standard exception.
pub open spec fn is_standard_code(c: u64) -> bool {
    c <= 9 || c == 12 || c == 13 || c == 15 || c == 18 || c == 19
}

/// The exception a code stands for.
pub open spec fn spec_exception(c: u64) -> Exception {
    if c == 0 {
        Exception::InstructionAddrMisalined
    } else if c == 1 {
        Exception::InstructionAccessFault
    } else if c == 2 {
        Exception::IllegalInstruction
    } else if c == 3 {
        Exception::BreakPoint
    } else if c == 4 {
        Exception::LoadAddrMisalined
    } else if c == 5 {
        Exception::LoadAccessFault
    } else if c == 6 {
        Exception::StoreAddrMisaligned
    } else if c == 7 {
        Exception::StoreAccessFault
    } else if c == 8 {
        Exception::EnvCallFromUMode
    } else if c == 9 {
        Exception::EnvCallFromSMode
    } else if c == 12 {
        Exception::InstructionPageFault
    } else if c == 13 {
        Exception::LoadPageFault
    } else if c == 15 {
        Exception::StorePageFault
    } else if c == 18 {
        Exception::SoftWareCheck
    } else if c == 19 {
        Exception::HardwareError
    } else if is_custom_code(c) {
        Exception::Custom(c)
    } else {
        Exception::Reserved(c)
    }
}

/// The code of an exception.
pub open spec fn exception_code(e: Exception) -> u64 {
    match e {
        Exception::InstructionAddrMisalined => 0,
        Exception::InstructionAccessFault => 1,
        Exception::IllegalInstruction => 2,
        Exception::BreakPoint => 3,
        Exception::LoadAddrMisalined => 4,
        Exception::LoadAccessFault => 5,
        Exception::StoreAddrMisaligned => 6,
        Exception::StoreAccessFault => 7,
        Exception::EnvCallFromUMode => 8,
        Exception::EnvCallFromSMode => 9,
        Exception::InstructionPageFault => 12,
        Exception::LoadPageFault => 13,
        Exception::StorePageFault => 15,
        Exception::SoftWareCheck => 18,
        Exception::HardwareError => 19,
        Exception::Reserved(c) => c,
        Exception::Custom(c) => c,
    }
}

/// Whether an exception is one that a code gives: `Reserved` and `Custom`
/// only hold codes of their own range.
pub open spec fn exception_wf(e: Exception) -> bool {
    match e {
        Exception::Reserved(c) => !is_standard_code(c) && !is_custom_code(c),
        Exception::Custom(c) => is_custom_code(c),
        _ => true,
    }
}

/// The text of an exception that has a fixed one.
pub open spec fn exception_desc(e: Exception) -> Seq<char> {
    match e {
        Exception::InstructionAddrMisalined => "Instruction address misaligned"@,
        Exception::InstructionAccessFault => "Instruction access fault"@,
        Exception::IllegalInstruction => "Instruction illgeal instruction"@,
        Exception::BreakPoint => "Break point"@,
        Exception::LoadAddrMisalined => "Load address misaligned"@,
        Exception::LoadAccessFault => "Load access fault"@,
        Exception::StoreAddrMisaligned => "Store/AMO address misaligned"@,
        Exception::StoreAccessFault => "Store/AMO access fault"@,
        Exception::EnvCallFromUMode => "Environment call from U-mode"@,
        Exception::EnvCallFromSMode => "Environment call from S-mode"@,
        Exception::InstructionPageFault => "Instruction page fault"@,
        Exception::LoadPageFault => "Load page fault"@,
        Exception::StorePageFault => "Store/AMO page fault"@,
        _ => Seq::empty(),
    }
}

/// The text of an exception: its description, or `Reserved <code>` /
/// `Custom <code>`.
pub open spec fn exception_text(e: Exception) -> Seq<char> {
    match e {
        Exception::Reserved(c) => "Reserved "@ + ascii_chars(decimal(c as nat)),
        Exception::Custom(c) => "Custom "@ + ascii_chars(decimal(c as nat)),
        _ => exception_desc(e),
    }
}

/// `prefix` followed by the decimal digits of `n`.
fn prefixed_number(prefix: &str, n: u64) -> (r: String)
    ensures
        r@ == prefix@ + ascii_chars(decimal(n as nat)),
{
    let mut digits: Vec<u8> = Vec::new();
    push_decimal(&mut digits, n as u64);
    proof {
        assert(digits@ =~= decimal(n as nat));
        lemma_decimal_ascii(n as nat);
    }
    let d = ascii_to_string(digits);
    str_concat(prefix, d.as_str())
}

impl Exception {
    /// The exception a code stands for.
    pub fn from_code(value: u64) -> (r: Exception)
        ensures
            r == spec_exception(value),
    {
        match value {
            0 => Exception::InstructionAddrMisalined,
            1 => Exception::InstructionAccessFault,
            2 => Exception::IllegalInstruction,
            3 => Exception::BreakPoint,
            4 => Exception::LoadAddrMisalined,
            5 => Exception::LoadAccessFault,
            6 => Exception::StoreAddrMisaligned,
            7 => Exception::StoreAccessFault,
            8 => Exception::EnvCallFromUMode,
            9 => Exception::EnvCallFromSMode,
            12 => Exception::InstructionPageFault,
            13 => Exception::LoadPageFault,
            15 => Exception::StorePageFault,
            18 => Exception::SoftWareCheck,
            19 => Exception::HardwareError,
            24..=31 | 48..=63 => Exception::Custom(value),
            _ => Exception::Reserved(value),
        }
    }

    /// The code of the exception.
    pub fn code(self) -> (r: u64)
        ensures
            r == exception_code(self),
    {
        match self {
            Exception::InstructionAddrMisalined => 0,
            Exception::InstructionAccessFault => 1,
            Exception::IllegalInstruction => 2,
            Exception::BreakPoint => 3,
            Exception::LoadAddrMisalined => 4,
            Exception::LoadAccessFault => 5,
            Exception::StoreAddrMisaligned => 6,
            Exception::StoreAccessFault => 7,
            Exception::EnvCallFromUMode => 8,
            Exception::EnvCallFromSMode => 9,
            Exception::InstructionPageFault => 12,
            Exception::LoadPageFault => 13,
            Exception::StorePageFault => 15,
            Exception::SoftWareCheck => 18,
            Exception::HardwareError => 19,
            Exception::Reserved(code) | Exception::Custom(code) => code,
        }
    }

    /// The exception as text. The two exceptions without a description
    /// (`SoftWareCheck`, `HardwareError`) have no text.
    pub fn to_string(self) -> (r: String)
        requires
            self != Exception::SoftWareCheck,
            self != Exception::HardwareError,
        ensures
            r@ == exception_text(self),
    {
        match self {
            Exception::Reserved(code) => prefixed_number("Reserved ", code),
            Exception::Custom(code) => prefixed_number("Custom ", code),
            Exception::InstructionAddrMisalined => str_to_string("Instruction address misaligned"),
            Exception::InstructionAccessFault => str_to_string("Instruction access fault"),
            Exception::IllegalInstruction => str_to_string("Instruction illgeal instruction"),
            Exception::BreakPoint => str_to_string("Break point"),
            Exception::LoadAddrMisalined => str_to_string("Load address misaligned"),
            Exception::LoadAccessFault => str_to_string("Load access fault"),
            Exception::StoreAddrMisaligned => str_to_string("Store/AMO address misaligned"),
            Exception::StoreAccessFault => str_to_string("Store/AMO access fault"),
            Exception::EnvCallFromUMode => str_to_string("Environment call from U-mode"),
            Exception::EnvCallFromSMode => str_to_string("Environment call from S-mode"),
            Exception::InstructionPageFault => str_to_string("Instruction page fault"),
            Exception::LoadPageFault => str_to_string("Load page fault"),
            Exception::StorePageFault => str_to_string("Store/AMO page fault"),
            Exception::SoftWareCheck | Exception::HardwareError => String::new(),
        }
    }
}

/// An interrupt, by code.
#[derive(Clone, Copy, Debug, PartialEq, Eq, Structural)]
pub enum Interrupt {
    Software,
    Timer,
    External,
    CounterFlow,
    Other(u64),
}

/// The interrupt a code stands for.
pub open spec fn spec_interrupt(c: u64) -> Interrupt {
    if c == 1 {
        Interrupt::Software
    } else if c == 5 {
        Interrupt::Timer
    } else if c == 9 {
        Interrupt::External
    } else if c == 13 {
        Interrupt::CounterFlow
    } else {
        Interrupt::Other(c)
    }
}

/// The code of an interrupt.
pub open spec fn interrupt_code(i: Interrupt) -> u64 {
    match i {
        Interrupt::Software => 1,
        Interrupt::Timer => 5,
        Interrupt::External => 9,
        Interrupt::CounterFlow => 13,
        Interrupt::Other(c) => c,
    }
}

/// Whether an interrupt is one that a code gives.
pub open spec fn interrupt_wf(i: Interrupt) -> bool {
    match i {
        Interrupt::Other(c) => c != 1 && c != 5 && c != 9 && c != 13,
        _ => true,
    }
}

/// The text of an interrupt.
pub open spec fn interrupt_text(i: Interrupt) -> Seq<char> {
    match i {
        Interrupt::Software => "Software Interrupt"@,
        Interrupt::Timer => "Timer Interrupt"@,
        Interrupt::External => "External Interrupt"@,
        Interrupt::CounterFlow => "CounterFlow Interrupt"@,
        Interrupt::Other(c) => "Other Interrupt ("@ + ascii_chars(decimal(c as nat)) + ")"@,
    }
}

impl Interrupt {
    /// The interrupt a code stands for.
    pub fn from_code(value: u64) -> (r: Interrupt)
        ensures
            r == spec_interrupt(value),
    {
        match value {
            1 => Interrupt::Software,
            5 => Interrupt::Timer,
            9 => Interrupt::External,
            13 => Interrupt::CounterFlow,
            _ => Interrupt::Other(value),
        }
    }

    /// The code of the interrupt.
    pub fn code(self) -> (r: u64)
        ensures
            r == interrupt_code(self),
    {
        match self {
            Interrupt::Software => 1,
            Interrupt::Timer => 5,
            Interrupt::External => 9,
            Interrupt::CounterFlow => 13,
            Interrupt::Other(code) => code,
        }
    }

    /// The interrupt as text.
    pub fn to_string(self) -> (r: String)
        ensures
            r@ == interrupt_text(self),
    {
        match self {
            Interrupt::Software => str_to_string("Software Interrupt"),
            Interrupt::Timer => str_to_string("Timer Interrupt"),
            Interrupt::External => str_to_string("External Interrupt"),
            Interrupt::CounterFlow => str_to_string("CounterFlow Interrupt"),
            Interrupt::Other(code) => {
                let head = prefixed_number("Other Interrupt (", code);
                str_concat(head.as_str(), ")")
            },
        }
    }
}

/// The cause of a trap.
#[derive(Clone, Copy, Debug, PartialEq, Eq, Structural)]
pub enum Scause {
    Intr(Interrupt),
    Excp(Exception),
}

/// The cause an `scause` value stands for: the top bit tells an interrupt
/// from an exception, and the low 16 bits give the code.
pub open spec fn spec_scause(value: u64) -> Scause {
    if value & INTERRUPT_BIT != 0 {
        Scause::Intr(spec_interrupt(value & 0xFFFF))
    } else {
        Scause::Excp(spec_exception(value & 0xFFFF))
    }
}

/// The `scause` value of a cause.
pub open spec fn scause_bits(s: Scause) -> u64 {
    match s {
        Scause::Intr(i) => interrupt_code(i) | INTERRUPT_BIT,
        Scause::Excp(e) => exception_code(e),
    }
}

/// The text of a cause.
pub open spec fn scause_text(s: Scause) -> Seq<char> {
    match s {
        Scause::Intr(i) => "INTR: "@ + interrupt_text(i),
        Scause::Excp(e) => "EXCEPTION: "@ + exception_text(e),
    }
}

impl Scause {
    /// The cause an `scause` value stands for.
    pub fn from_bits(value: u64) -> (r: Scause)
        ensures
            r == spec_scause(value),
    {
        if value & INTERRUPT_BIT != 0 {
            Scause::Intr(Interrupt::from_code(value & 0xFFFF))
        } else {
            Scause::Excp(Exception::from_code(value & 0xFFFF))
        }
    }

    /// The `scause` value of the cause.
    pub fn bits(self) -> (r: u64)
        ensures
            r == scause_bits(self),
    {
        match self {
            Scause::Intr(interrupt) => interrupt.code() | INTERRUPT_BIT,
            Scause::Excp(exception) => exception.code(),
        }
    }

    /// The cause as text.
    pub fn to_string(self) -> (r: String)
        requires
            self != Scause::Excp(Exception::SoftWareCheck),
            self != Scause::Excp(Exception::HardwareError),
        ensures
            r@ == scause_text(self),
    {
        match self {
            Scause::Intr(i) => {
                let t = i.to_string();
                str_concat("INTR: ", t.as_str())
            },
            Scause::Excp(e) => {
                let t = e.to_string();
                str_concat("EXCEPTION: ", t.as_str())
            },
        }
    }
}

/// Reading a code as an exception keeps the code, and an exception that a
/// code gives is read back from its code.
pub proof fn lemma_exception_code_round_trip(c: u64, e: Exception)
    ensures
        exception_code(spec_exception(c)) == c,
        exception_wf(spec_exception(c)),
        exception_wf(e) ==> spec_exception(exception_code(e)) == e,
{
}

/// Reading a code as an interrupt keeps the code, and an interrupt that a
/// code gives is read back from its code.
pub proof fn lemma_interrupt_code_round_trip(c: u64, i: Interrupt)
    ensures
        interrupt_code(spec_interrupt(c)) == c,
        interrupt_wf(spec_interrupt(c)),
        interrupt_wf(i) ==> spec_interrupt(interrupt_code(i)) == i,
{
}

/// A cause whose code fits in 16 bits is read back from its `scause` value.
pub proof fn lemma_scause_round_trip(s: Scause)
    requires
        match s {
            Scause::Intr(i) => interrupt_wf(i) && interrupt_code(i) <= 0xFFFF,
            Scause::Excp(e) => exception_wf(e) && exception_code(e) <= 0xFFFF,
        },
    ensures
        spec_scause(scause_bits(s)) == s,
{
    match s {
        Scause::Intr(i) => {
            let c = interrupt_code(i);
            assert((c | INTERRUPT_BIT) & INTERRUPT_BIT != 0 && (c | INTERRUPT_BIT) & 0xFFFF == c)
                by (bit_vector)
                requires
                    c <= 0xFFFF,
                    INTERRUPT_BIT == 0x8000_0000_0000_0000u64,
            ;
        },
        Scause::Excp(e) => {
            let c = exception_code(e);
            assert(c & INTERRUPT_BIT == 0 && c & 0xFFFF == c) by (bit_vector)
                requires
                    c <= 0xFFFF,
                    INTERRUPT_BIT == 0x8000_0000_0000_0000u64,
            ;
        },
    }
}

} // verus!
