//! Sv39 page-table entries and the index arithmetic of a three-level walk.
//!
//! An entry holds the physical page number in bits 10..54 and the flags in
//! bits 0..10:
//!
//! ``` text
//! | Reserved | Physical Page Number | Flags |
//! 63         53                     10      0
//! ```

use vstd::prelude::*;

verus! {

pub const PTE_VALID: u64 = 1;

pub const PTE_READ: u64 = 2;

pub const PTE_WRITE: u64 = 4;

pub const PTE_EXEC: u64 = 8;

pub const PTE_USER: u64 = 16;

/// The flag bits of an entry.
pub const FLAGS_MASK: u64 = 0x3FF;

/// The bits a Sv39 virtual address may use.
pub const RISCV_VA_MASK: u64 = 0x7F_FFFF_FFFF;

/// The first level-2 index of the kernel's part of every address space.
pub const KERNEL_V2_INDEX_START: usize = 0;

/// The last level-2 index of the kernel's part of every address space.
pub const KERNEL_V2_INDEX_END: usize = 5;

/// The access an entry grants, as the kernel asks for it.
#[derive(Clone, Copy, Debug, PartialEq, Eq, Structural)]
pub struct EntryPerm {
    pub valid: bool,
    pub readable: bool,
    pub writable: bool,
    pub executable: bool,
    pub user: bool,
}

/// The flag bits of an access.
pub open spec fn perm_bits(p: EntryPerm) -> u64 {
    (if p.user { PTE_USER } else { 0 }) | (if p.valid { PTE_VALID } else { 0 }) | (if p.writable {
        PTE_WRITE
    } else {
        0
    }) | (if p.readable { PTE_READ } else { 0 }) | (if p.executable { PTE_EXEC } else { 0 })
}

/// The flag bits of an entry as the hardware reads them.
#[derive(Clone, Copy, PartialEq, Eq, Structural)]
pub struct ArchEntryPerm(pub u64);

impl ArchEntryPerm {
    /// The flag bits that grant `perm`.
    pub fn from_perm(perm: EntryPerm) -> (r: Self)
        ensures
            r.0 == perm_bits(perm),
            r.0 & !FLAGS_MASK == 0,
    {
        let u: u64 = if perm.user { 16 } else { 0 };
        let v: u64 = if perm.valid { 1 } else { 0 };
        let w: u64 = if perm.writable { 4 } else { 0 };
        let rd: u64 = if perm.readable { 2 } else { 0 };
        let x: u64 = if perm.executable { 8 } else { 0 };
        let flags = u | v | w | rd | x;
        assert((u | v | w | rd | x) & !0x3FFu64 == 0) by (bit_vector)
            requires
                u == 0 || u == 16,
                v == 0 || v == 1,
                w == 0 || w == 4,
                rd == 0 || rd == 2,
                x == 0 || x == 8,
        ;
        ArchEntryPerm(flags)
    }
}

/// A page-table entry.
#[derive(Clone, Copy)]
pub struct PageTableEntryImpl(pub u64);

/// Whether flag `f` is set in `bits`.
pub open spec fn has_flag(bits: u64, f: u64) -> bool {
    bits & f != 0
}

/// `bits` with flag `f` set or cleared.
pub open spec fn with_flag(bits: u64, f: u64, on: bool) -> u64 {
    if on {
        bits | f
    } else {
        bits & !f
    }
}

impl PageTableEntryImpl {
    /// The physical page number.
    pub fn physical_page_num(self) -> (r: u64)
        ensures
            r == self.0 >> 10,
    {
        self.0 >> 10
    }

    /// Points the entry at the page at `addr`, keeping its flags.
    pub fn set_physical_addr(&mut self, addr: u64)
        requires
            addr % 4096 == 0,
            addr != 0,
        ensures
            final(self).0 == (old(self).0 & FLAGS_MASK) | ((addr / 4096) << 10),
    {
        self.0 = self.0 & FLAGS_MASK;
        self.0 = self.0 | ((addr / 4096) << 10);
    }

    /// Whether the entry points to a next-level table: it is valid and
    /// grants no read, write or execute.
    pub fn is_page_table(self) -> (r: bool)
        ensures
            r == (self.0 & (PTE_READ | PTE_WRITE | PTE_EXEC | PTE_VALID) == PTE_VALID),
    {
        self.0 & (PTE_READ | PTE_WRITE | PTE_EXEC | PTE_VALID) == PTE_VALID
    }

    /// Makes the entry point to the next-level table at `table_addr`.
    pub fn make_pde(&mut self, table_addr: u64)
        ensures
            final(self).0 == ((table_addr / 4096) << 10) | PTE_VALID,
    {
        self.0 = 0;
        self.0 = ((table_addr / 4096) << 10) | PTE_VALID;
    }

    /// Replaces the flags of the entry.
    pub fn set_perm(&mut self, perm: ArchEntryPerm)
        ensures
            final(self).0 == (old(self).0 & !FLAGS_MASK) | perm.0,
    {
        self.0 = self.0 & !FLAGS_MASK;
        self.0 = self.0 | perm.0;
    }

    /// Whether the entry is valid.
    pub fn is_valid(&self) -> (r: bool)
        ensures
            r == has_flag(self.0, PTE_VALID),
    {
        self.0 & PTE_VALID != 0
    }

    /// Sets or clears the valid flag.
    pub fn set_valid(&mut self, is_valid: bool)
        ensures
            final(self).0 == with_flag(old(self).0, PTE_VALID, is_valid),
    {
        if is_valid {
            self.0 = self.0 | PTE_VALID;
        } else {
            self.0 = self.0 & !PTE_VALID;
        }
    }

    /// Whether the entry grants writes.
    pub fn is_writable(&self) -> (r: bool)
        ensures
            r == has_flag(self.0, PTE_WRITE),
    {
        self.0 & PTE_WRITE != 0
    }

    /// Sets or clears the write flag.
    pub fn set_writable(&mut self, writable: bool)
        ensures
            final(self).0 == with_flag(old(self).0, PTE_WRITE, writable),
    {
        if writable {
            self.0 = self.0 | PTE_WRITE;
        } else {
            self.0 = self.0 & !PTE_WRITE;
        }
    }

    /// Whether the entry grants reads.
    pub fn is_readable(&self) -> (r: bool)
        ensures
            r == has_flag(self.0, PTE_READ),
    {
        self.0 & PTE_READ != 0
    }

    /// Sets or clears the read flag.
    pub fn set_readable(&mut self, readable: bool)
        ensures
            final(self).0 == with_flag(old(self).0, PTE_READ, readable),
    {
        if readable {
            self.0 = self.0 | PTE_READ;
        } else {
            self.0 = self.0 & !PTE_READ;
        }
    }

    /// Whether user mode may use the entry.
    pub fn is_user(&self) -> (r: bool)
        ensures
            r == has_flag(self.0, PTE_USER),
    {
        self.0 & PTE_USER != 0
    }

    /// Sets or clears the user flag.
    pub fn set_user(&mut self, user: bool)
        ensures
            final(self).0 == with_flag(old(self).0, PTE_USER, user),
    {
        if user {
            self.0 = self.0 | PTE_USER;
        } else {
            self.0 = self.0 & !PTE_USER;
        }
    }

    /// Whether the entry grants execution.
    pub fn is_executable(&self) -> (r: bool)
        ensures
            r == has_flag(self.0, PTE_EXEC),
    {
        self.0 & PTE_EXEC != 0
    }

    /// Sets or clears the execute flag.
    pub fn set_executable(&mut self, executable: bool)
        ensures
            final(self).0 == with_flag(old(self).0, PTE_EXEC, executable),
    {
        if executable {
            self.0 = self.0 | PTE_EXEC;
        } else {
            self.0 = self.0 & !PTE_EXEC;
        }
    }

    /// Clears the whole entry.
    pub fn clear(&mut self)
        ensures
            final(self).0 == 0,
    {
        self.0 = 0;
    }

    /// The physical address the entry points to.
    pub fn physical_addr(&self) -> (r: u64)
        requires
            self.0 >> 10 < 0x10_0000_0000_0000,
        ensures
            r == (self.0 >> 10) * 4096,
    {
        (self.0 >> 10) * 4096
    }
}

/// Setting a flag and reading it back gives what was set, and no other
/// flag or the address changes.
pub proof fn lemma_flag_set_get(bits: u64, f: u64, g: u64, on: bool)
    requires
        f == PTE_VALID || f == PTE_READ || f == PTE_WRITE || f == PTE_EXEC || f == PTE_USER,
        g == PTE_VALID || g == PTE_READ || g == PTE_WRITE || g == PTE_EXEC || g == PTE_USER,
        f != g,
    ensures
        has_flag(with_flag(bits, f, on), f) == on,
        has_flag(with_flag(bits, f, on), g) == has_flag(bits, g),
        with_flag(bits, f, on) >> 10 == bits >> 10,
{
    let w = with_flag(bits, f, on);
    if on {
        assert(w == bits | f);
        assert((bits | f) & f != 0) by (bit_vector)
            requires
                f != 0,
        ;
        assert(((bits | f) & g != 0) == (bits & g != 0) && (bits | f) >> 10 == bits >> 10)
            by (bit_vector)
            requires
                f == 1u64 || f == 2u64 || f == 4u64 || f == 8u64 || f == 16u64,
                g == 1u64 || g == 2u64 || g == 4u64 || g == 8u64 || g == 16u64,
                f != g,
        ;
    } else {
        assert(w == bits & !f);
        assert((bits & !f) & f == 0) by (bit_vector);
        assert(((bits & !f) & g != 0) == (bits & g != 0) && (bits & !f) >> 10 == bits >> 10)
            by (bit_vector)
            requires
                f == 1u64 || f == 2u64 || f == 4u64 || f == 8u64 || f == 16u64,
                g == 1u64 || g == 2u64 || g == 4u64 || g == 8u64 || g == 16u64,
                f != g,
        ;
    }
}

/// An entry pointed at a page-aligned address gives that address back, and
/// keeps its flags.
pub proof fn lemma_set_physical_addr_get(bits: u64, addr: u64)
    requires
        addr % 4096 == 0,
    ensures
        ((bits & FLAGS_MASK) | ((addr / 4096) << 10)) >> 10 < 0x10_0000_0000_0000,
        (((bits & FLAGS_MASK) | ((addr / 4096) << 10)) >> 10) * 4096 == addr,
        ((bits & FLAGS_MASK) | ((addr / 4096) << 10)) & FLAGS_MASK == bits & FLAGS_MASK,
{
    let p = addr / 4096;
    assert(p < 0x10_0000_0000_0000);
    assert(((bits & 0x3FF) | (p << 10)) >> 10 == p && ((bits & 0x3FF) | (p << 10)) & 0x3FF == bits
        & 0x3FF) by (bit_vector)
        requires
            p < 0x10_0000_0000_0000u64,
    ;
}

/// The index into the level-`level` table of the walk for `va` (bits
/// `12 + 9 * level` to `20 + 9 * level`).
pub fn index_for_va(level: usize, va: usize) -> (r: usize)
    requires
        level <= 2,
    ensures
        r == (va >> (level * 9 + 12) as usize) & 511,
        r < 512,
{
    let shift = level * 9 + 12;
    let r = (va >> shift) & 511;
    assert(r < 512) by (bit_vector)
        requires
            r == (va >> shift) & 511,
    ;
    r
}

/// The exclusive upper bound index covering `va` at a level: the index of
/// `va`, plus one when `va` has bits below that level's entry size.
pub fn upper_bound_index_for_va(level: usize, va: usize) -> (r: usize)
    requires
        level <= 2,
    ensures
        r == ((va >> (level * 9 + 12) as usize) & 511) + if va & ((1usize << (level * 9 + 12) as usize)
            - 1) as usize != 0 {
            1usize
        } else {
            0usize
        },
        r <= 512,
{
    let shift = level * 9 + 12;
    let mut index = (va >> shift) & 511;
    assert(index < 512) by (bit_vector)
        requires
            index == (va >> shift) & 511,
    ;
    assert(1usize << shift >= 1) by (bit_vector)
        requires
            shift <= 30,
    ;
    let mask = (1usize << shift) - 1;
    if va & mask != 0 {
        index += 1;
    }
    index
}

/// The virtual address the entry at `idx` of a level-`level` table starts
/// at, relative to that table's base.
pub fn va_for_index(level: usize, idx: usize) -> (r: usize)
    requires
        level <= 2,
    ensures
        r == idx << (level * 9 + 12) as usize,
{
    let shift = level * 9 + 12;
    idx << shift
}

} // verus!
