//! The virtual memory layout of the kernel and of user tasks (addresses are
//! 64-bit: the kernel runs on riscv64).
//!
//! | Start         | End           | Size  | What                           |
//! |---------------|---------------|-------|--------------------------------|
//! | 0x1000_0000   | 0x1000_1000   | 4KB   | UART registers                 |
//! | 0x1000_1000   | 0x1000_2000   | 4KB   | Virtio mmio registers          |
//! | 0x8000_0000   | 0xC000_0000   | 1GB   | Kernel code and data           |
//! | 0xC000_0000   | 0xD000_0000   | 256MB | RISC-V plic                    |
//! | 0xD000_0000   | 0xD800_0000   | 128MB | Direct mapping of all memory   |
//! | 0x2_0000_9000 | 0x2_0000_A000 | 4KB   | Task trap frame                |
//! | 0x2_0008_0000 | 0x2_2008_0000 | 512MB | User ELF (code, data, rodata)  |
//! | 0x3_0000_0000 | 0x3_4000_0000 | 1GB   | User stack and heap            |

use vstd::prelude::*;

verus! {


/// The size of a page.
pub const PGSIZE: u64 = 4096;

pub const KERNEL_START_VADDR: u64 = 0;

pub const KERNEL_END_VADDR: u64 = 0x1_4000_0000;

pub const UART_BASE_VADDR: u64 = 0x1000_0000;

pub const UART_BASE_PADDR: u64 = 0x1000_0000;

pub const UART_END_VADDR: u64 = 0x1000_1000;

pub const VIRTIO_BASE_VADDR: u64 = 0x1000_1000;

pub const VIRTIO_BASE_PADDR: u64 = 0x1000_1000;

pub const VIRTIO_END_VADDR: u64 = 0x1000_2000;

pub const KERNEL_ELF_BASE_VADDR: u64 = 0x8000_0000;

pub const PLIC_BASE_VADDR: u64 = 0xC000_0000;

pub const PLIC_END_VADDR: u64 = 0xD000_0000;

pub const PLIC_BASE_PADDR: u64 = 0xC00_0000;

pub const DIRECT_MAPPING_BASE_VADDR: u64 = 0xD000_0000;

pub const DIRECT_MAPPING_SIZE: u64 = 0x800_0000;

pub const DIRECT_MAPPING_END_VADDR: u64 = 0xD800_0000;

pub const TASK_TRAPFRAME_BASE: u64 = 0x2_0000_9000;

pub const TASK_TRAPFRAME_END: u64 = 0x2_0000_A000;

pub const USER_ELF_BASE_VADDR: u64 = 0x2_0008_0000;

/// 512MB.
pub const USER_ELF_SIZE: u64 = 0x2000_0000;

pub const USER_ELF_END_VADDR: u64 = 0x2_2008_0000;

pub const USER_BASE_VADDR: u64 = 0x3_0000_0000;

pub const USER_AREA_SIZE: u64 = 0x4000_0000;

pub const USER_END_VADDR: u64 = 0x3_4000_0000;

/// Whether `vaddr` lies in the area that is mapped per task (from
/// `0x2_0000_0000` on).
pub fn is_vmap_area(vaddr: u64) -> (r: bool)
    ensures
        r == (vaddr >= 0x2_0000_0000),
{
    vaddr >= 0x2_0000_0000
}

/// Whether `addr` lies in the user ELF area.
pub fn is_from_user_elf(addr: u64) -> (r: bool)
    ensures
        r == (USER_ELF_BASE_VADDR <= addr < USER_ELF_END_VADDR),
{
    addr >= USER_ELF_BASE_VADDR && addr < USER_ELF_END_VADDR
}

/// Whether `[addr, addr + size)` lies in user memory: from the user ELF
/// base up to the end of the user area, without wrapping around.
pub fn is_from_user(addr: u64, size: u64) -> (r: bool)
    ensures
        r == (addr >= USER_ELF_BASE_VADDR && addr + size <= USER_END_VADDR),
{
    addr >= USER_ELF_BASE_VADDR && match addr.checked_add(size) {
        Some(end_addr) => end_addr <= USER_END_VADDR,
        None => false,
    }
}

} // verus!
