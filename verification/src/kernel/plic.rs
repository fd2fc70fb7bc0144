//! Where the registers of the platform-level interrupt controller sit,
//! as offsets from its base address. The reads and writes themselves are
//! memory-mapped I/O and stay outside the library.

use vstd::prelude::*;

verus! {

/// The first enable register of the supervisor contexts.
pub const ENABLE_BASE_OFFSET: usize = 0x2080;

/// The distance between the enable registers of two harts.
pub const ENABLE_SIZE_PER_CTX: usize = 0x100;

/// The priority-threshold register of the first supervisor context.
pub const THRESHOLD_BASE_OFFSET: usize = 0x201000;

/// The distance between the threshold (and claim) registers of two harts.
pub const CTX_SIZE: usize = 0x2000;

/// The offset of the priority register of interrupt `irq`; interrupt 0
/// does not exist and the controller has 1023 others.
pub fn priority_reg_offset(irq: u32) -> (r: usize)
    requires
        1 <= irq < 1024,
    ensures
        r == irq * 4,
{
    irq as usize * 4
}

/// The register and the bit within it that enable interrupt `irq` for the
/// supervisor context of hart `hart_id`.
pub fn enable_reg_bit(hart_id: usize, irq: u32) -> (r: (usize, u32))
    requires
        ENABLE_BASE_OFFSET + ENABLE_SIZE_PER_CTX * hart_id + irq / 32 <= usize::MAX,
    ensures
        r.0 == ENABLE_BASE_OFFSET + ENABLE_SIZE_PER_CTX * hart_id + irq / 32,
        r.1 == irq % 32,
{
    (ENABLE_BASE_OFFSET + ENABLE_SIZE_PER_CTX * hart_id + irq as usize / 32, irq % 32)
}

/// The priority-threshold register of hart `hart_id`.
pub fn threshold_reg_offset(hart_id: usize) -> (r: usize)
    requires
        THRESHOLD_BASE_OFFSET + hart_id * CTX_SIZE <= usize::MAX,
    ensures
        r == THRESHOLD_BASE_OFFSET + hart_id * CTX_SIZE,
{
    THRESHOLD_BASE_OFFSET + hart_id * CTX_SIZE
}

/// The claim/complete register of hart `hart_id`: reading it claims the
/// interrupt to serve, writing an interrupt to it completes that one.
pub fn claim_reg_offset(hart_id: usize) -> (r: usize)
    requires
        THRESHOLD_BASE_OFFSET + hart_id * CTX_SIZE + 4 <= usize::MAX,
    ensures
        r == THRESHOLD_BASE_OFFSET + hart_id * CTX_SIZE + 4,
{
    THRESHOLD_BASE_OFFSET + hart_id * CTX_SIZE + 4
}

/// The value of an enable register after interrupt bit `bit` is set in it.
pub fn with_enabled(reg: u32, bit: u32) -> (r: u32)
    requires
        bit < 32,
    ensures
        r == reg | (1u32 << bit),
{
    reg | (1u32 << bit)
}

} // verus!
