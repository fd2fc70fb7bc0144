//! The RISC-V kernel's own logic: trap frames, the memory layout, trap
//! causes, page-table entries, ELF headers and the interrupt controller.

pub mod cpu;
pub mod ctx;
pub mod devices;
pub mod devtable;
pub mod discipline;
pub mod elf;

pub mod memlayout;
pub mod plic;
pub mod pgtable;
pub mod procfs;
pub mod pte;
pub mod seek;
pub mod trap;
pub mod terminal;
pub mod tty;
pub mod trap_cause;
pub mod virtio;
pub mod virtio_init;


