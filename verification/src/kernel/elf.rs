//! ELF64 file and program headers: decoding them from bytes and checking
//! them before a user program is loaded.

use vstd::prelude::*;
use crate::errors::{SysError, SysErrorKind, opt_str_view};
use crate::le::{read_le, le_value};
use super::memlayout::{PGSIZE, USER_ELF_BASE_VADDR, USER_ELF_END_VADDR, USER_ELF_SIZE};

verus! {

/// The size of an ELF64 file header.
pub const ELF_HEADER_SIZE: usize = 64;

/// The size of an ELF64 program header.
pub const PROGRAM_HEADER_SIZE: usize = 56;

/// A loadable segment.
pub const PT_LOAD: u32 = 1;

/// An ELF64 file header.
#[derive(Default, Debug, Clone, Copy)]
pub struct ElfHeader {
    pub ident: [u8; 16],
    pub typ: u16,
    pub machine: u16,
    pub version: u32,
    pub entry: u64,
    pub phoff: u64,
    pub shoff: u64,
    pub flags: u32,
    pub ehsize: u16,
    pub phentsize: u16,
    pub phnum: u16,
    pub shentsize: u16,
    pub shnum: u16,
    pub shstrndx: u16,
}

/// The little-endian value of `k` bytes at `off`.
pub open spec fn field(b: Seq<u8>, off: int, k: int) -> nat {
    le_value(b.subrange(off, off + k))
}

/// Whether a header was decoded from the first 64 bytes of `b`.
pub open spec fn elf_header_decoded(h: ElfHeader, b: Seq<u8>) -> bool {
    &&& h.ident@ =~= b.subrange(0, 16)
    &&& h.typ == field(b, 16, 2)
    &&& h.machine == field(b, 18, 2)
    &&& h.version == field(b, 20, 4)
    &&& h.entry == field(b, 24, 8)
    &&& h.phoff == field(b, 32, 8)
    &&& h.shoff == field(b, 40, 8)
    &&& h.flags == field(b, 48, 4)
    &&& h.ehsize == field(b, 52, 2)
    &&& h.phentsize == field(b, 54, 2)
    &&& h.phnum == field(b, 56, 2)
    &&& h.shentsize == field(b, 58, 2)
    &&& h.shnum == field(b, 60, 2)
    &&& h.shstrndx == field(b, 62, 2)
}

/// The magic bytes `\x7FELF`.
pub open spec fn elf_magic() -> Seq<u8> {
    seq![0x7Fu8, 0x45u8, 0x4Cu8, 0x46u8]
}

fn read_u16(b: &[u8], off: usize) -> (r: u16)
    requires
        off + 2 <= b@.len(),
    ensures
        r == field(b@, off as int, 2),
{
    proof {
        crate::le::lemma_le_value_bound(b@.subrange(off as int, off + 2));
        crate::le::lemma_pow256_values();
    }
    read_le(b, off, 2) as u16
}

fn read_u32(b: &[u8], off: usize) -> (r: u32)
    requires
        off + 4 <= b@.len(),
    ensures
        r == field(b@, off as int, 4),
{
    proof {
        crate::le::lemma_le_value_bound(b@.subrange(off as int, off + 4));
        crate::le::lemma_pow256_values();
    }
    read_le(b, off, 4) as u32
}

fn read_u64(b: &[u8], off: usize) -> (r: u64)
    requires
        off + 8 <= b@.len(),
    ensures
        r == field(b@, off as int, 8),
{
    read_le(b, off, 8)
}

impl ElfHeader {
    /// The header in the first 64 bytes of `b`; `None` when there are
    /// fewer.
    pub fn from_bytes(b: &[u8]) -> (r: Option<Self>)
        ensures
            r is Some <==> b@.len() >= ELF_HEADER_SIZE,
            r is Some ==> elf_header_decoded(r->0, b@),
    {
        if b.len() < ELF_HEADER_SIZE {
            return None;
        }
        let mut ident = [0u8; 16];
        let mut i: usize = 0;
        while i < 16
            invariant
                b@.len() >= 64,
                i <= 16,
                forall|k: int| 0 <= k < i ==> ident@[k] == b@[k],
            decreases 16 - i,
        {
            ident[i] = b[i];
            i += 1;
        }
        Some(ElfHeader {
            ident,
            typ: read_u16(b, 16),
            machine: read_u16(b, 18),
            version: read_u32(b, 20),
            entry: read_u64(b, 24),
            phoff: read_u64(b, 32),
            shoff: read_u64(b, 40),
            flags: read_u32(b, 48),
            ehsize: read_u16(b, 52),
            phentsize: read_u16(b, 54),
            phnum: read_u16(b, 56),
            shentsize: read_u16(b, 58),
            shnum: read_u16(b, 60),
            shstrndx: read_u16(b, 62),
        })
    }

    /// Checks the magic bytes `\x7FELF`.
    pub fn check_valid(&self) -> (r: Result<(), SysError>)
        ensures
            r is Ok <==> self.ident@.subrange(0, 4) =~= elf_magic(),
            r is Err ==> r->Err_0.kind == SysErrorKind::ExecFormat && opt_str_view(r->Err_0.msg)
                == Some("bad elf magic"@),
    {
        if self.ident[0] == 0x7F && self.ident[1] == 0x45 && self.ident[2] == 0x4C && self.ident[3]
            == 0x46 {
            Ok(())
        } else {
            proof {
                if self.ident@.subrange(0, 4) =~= elf_magic() {
                    assert(self.ident@.subrange(0, 4)[0] == self.ident@[0]);
                    assert(self.ident@.subrange(0, 4)[1] == self.ident@[1]);
                    assert(self.ident@.subrange(0, 4)[2] == self.ident@[2]);
                    assert(self.ident@.subrange(0, 4)[3] == self.ident@[3]);
                }
            }
            Err(SysError::with_fmt_args(SysErrorKind::ExecFormat, "bad elf magic"))
        }
    }
}

/// An ELF64 program header.
#[derive(Default, Debug, Clone, Copy)]
pub struct ProgramHeader {
    pub typ: u32,
    pub flags: u32,
    pub offset: u64,
    pub vaddr: u64,
    pub paddr: u64,
    pub filesz: u64,
    pub memsz: u64,
    pub align: u64,
}

/// Whether a program header was decoded from the first 56 bytes of `b`.
pub open spec fn program_header_decoded(h: ProgramHeader, b: Seq<u8>) -> bool {
    &&& h.typ == field(b, 0, 4)
    &&& h.flags == field(b, 4, 4)
    &&& h.offset == field(b, 8, 8)
    &&& h.vaddr == field(b, 16, 8)
    &&& h.paddr == field(b, 24, 8)
    &&& h.filesz == field(b, 32, 8)
    &&& h.memsz == field(b, 40, 8)
    &&& h.align == field(b, 48, 8)
}

/// Why a program header is refused, in the order the checks are made, or
/// `None` when it is accepted.
pub open spec fn phdr_problem(h: ProgramHeader) -> Option<Seq<char>> {
    if h.vaddr % (PGSIZE as u64) != 0 {
        Some("phdr: vaddr is not page-aligned"@)
    } else if h.vaddr + h.memsz > u64::MAX {
        Some("phdr: invalid vaddr or memsz"@)
    } else if h.filesz > h.memsz {
        Some("phdr: filesz > memsz"@)
    } else if h.memsz > USER_ELF_SIZE {
        Some("phdr: too large memsz"@)
    } else if h.vaddr < USER_ELF_BASE_VADDR || h.vaddr + h.memsz > USER_ELF_END_VADDR {
        Some("phdr: vaddr..+=memsz is invalid"@)
    } else {
        None
    }
}

/// A program header is accepted exactly when its segment starts on a page
/// boundary, lies within the user ELF area, `USER_ELF_BASE_VADDR` up to
/// `USER_ELF_END_VADDR`, holds no more file bytes than memory bytes, and
/// spans at most `USER_ELF_SIZE` bytes; a segment whose file size equals
/// its memory size is accepted.
pub proof fn lemma_phdr_accepted(h: ProgramHeader)
    ensures
        phdr_problem(h) is None <==> {
            &&& h.vaddr % 4096 == 0
            &&& USER_ELF_BASE_VADDR <= h.vaddr
            &&& h.vaddr + h.memsz <= USER_ELF_END_VADDR
            &&& h.filesz <= h.memsz
            &&& h.memsz <= USER_ELF_SIZE
        },
{
}

impl ProgramHeader {
    /// The program header in the first 56 bytes of `b`; `None` when there
    /// are fewer.
    pub fn from_bytes(b: &[u8]) -> (r: Option<Self>)
        ensures
            r is Some <==> b@.len() >= PROGRAM_HEADER_SIZE,
            r is Some ==> program_header_decoded(r->0, b@),
    {
        if b.len() < PROGRAM_HEADER_SIZE {
            return None;
        }
        Some(ProgramHeader {
            typ: read_u32(b, 0),
            flags: read_u32(b, 4),
            offset: read_u64(b, 8),
            vaddr: read_u64(b, 16),
            paddr: read_u64(b, 24),
            filesz: read_u64(b, 32),
            memsz: read_u64(b, 40),
            align: read_u64(b, 48),
        })
    }

    /// Checks that the segment is page-aligned, does not wrap, holds no
    /// more file bytes than memory, and lies within the user ELF area.
    pub fn check_valid(&self) -> (r: Result<(), SysError>)
        ensures
            r is Ok <==> phdr_problem(*self) is None,
            r is Err ==> r->Err_0.kind == SysErrorKind::ExecFormat && opt_str_view(r->Err_0.msg)
                == phdr_problem(*self),
    {
        if self.vaddr % PGSIZE != 0 {
            return Err(
                SysError::with_fmt_args(SysErrorKind::ExecFormat, "phdr: vaddr is not page-aligned"),
            );
        }
        if self.vaddr.checked_add(self.memsz).is_none() {
            return Err(
                SysError::with_fmt_args(SysErrorKind::ExecFormat, "phdr: invalid vaddr or memsz"),
            );
        }
        if self.filesz > self.memsz {
            return Err(SysError::with_fmt_args(SysErrorKind::ExecFormat, "phdr: filesz > memsz"));
        }
        if self.memsz > USER_ELF_SIZE {
            return Err(SysError::with_fmt_args(SysErrorKind::ExecFormat, "phdr: too large memsz"));
        }
        if self.vaddr < USER_ELF_BASE_VADDR || self.vaddr + self.memsz > USER_ELF_END_VADDR {
            return Err(
                SysError::with_fmt_args(SysErrorKind::ExecFormat, "phdr: vaddr..+=memsz is invalid"),
            );
        }
        Ok(())
    }
}

} // verus!
