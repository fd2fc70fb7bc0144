//! The content of an inode: which data block holds each part of a file,
//! and reading and writing through the block pointers.

use vstd::prelude::*;
use crate::errors::{FsError, FsErrorKind, opt_str_view};
use crate::le::{le_value, le_bytes};
use crate::efs::consts::{BLOCK_SIZE, MAX_FILE_SIZE, NUM_DIRECT_DATA_BLKS, BLK_NUMS_PER_BLOCK, INVALID_DATA_BLOCK_NO};
use crate::efs::dev::BlockDevice;
use crate::efs::buffer::BlockBufferAllocator;
use crate::efs::cache::{extends, written};
use crate::efs::freeing::{
    blk_free, tail_freed, tail_start, shrunk, lemma_tail_start, lemma_shrunk_step, lemma_tail_step, lemma_tail_extends,
    lemma_tail_table_free, trunc_freed,
};
use crate::efs::fs::EfsFileSystem;
use crate::efs::inode::{RawINode, FileType, spec_file_type};
use crate::efs::bitmap::{bit_blk, bit_set, bit_flipped};
use crate::efs::extent::{
    tables_placed, table_placed, low_kept, lemma_placed_frame, lemma_bitmap_before_data, lemma_low_kept_trans,
    lemma_flip_low, lemma_extends_low, blocks_of, kept_outside, ptrs_kept, byte_kept, lemma_keep_step,
    lemma_keep_same_pointers, lemma_sound_free, lemma_kept_shrink, lemma_kept_high_frame, high_kept, lemma_sound_sub,
    lemma_sound_frame, lemma_sound_high, range_high, lemma_high_same_pointers, write_ready, write_hi, range_sound, holds_prefix, walk_marked, lemma_write_chunk, lemma_same_pointers,
    lemma_holds_prefix_intro, others_untouched, blk_kept, lemma_untouched_step, blk_marked, range_uses, marks_kept, fresh_blocks, lemma_free_untouched,
    lemma_untouched_extends, lemma_table_free_untouched,
};

verus! {

/// The number of file blocks that the pointers of an inode reach.
pub open spec fn max_file_blocks() -> int {
    12int + 512 + 512 * 512
}

/// The block number in slot `i` of table block `t`.
pub open spec fn table_entry(view: Map<u64, Seq<u8>>, t: u64, i: int) -> u64 {
    le_value(view[t].subrange(8 * i, 8 * i + 8)) as u64
}

/// The second-level table of file block `idx`, reached through the doubly
/// indirect table.
pub open spec fn second_table(view: Map<u64, Seq<u8>>, n: RawINode, idx: int) -> u64 {
    table_entry(view, n.double_indirect_blk_ptr, (idx - 524) / 512)
}

/// The data block that holds file block `idx` of inode `n`, 0 where a
/// pointer on the way is missing.
pub open spec fn file_blk(view: Map<u64, Seq<u8>>, n: RawINode, idx: int) -> u64 {
    if idx < 12 {
        n.direct_blk_ptrs@[idx]
    } else if idx < 524 {
        table_entry(view, n.indirect_blk_ptr, idx - 12)
    } else if second_table(view, n, idx) == 0 {
        0
    } else {
        table_entry(view, second_table(view, n, idx), (idx - 524) % 512)
    }
}

/// The table blocks that the way to file block `idx` reads are cached.
pub open spec fn walk_known(view: Map<u64, Seq<u8>>, n: RawINode, idx: int) -> bool {
    if idx < 12 {
        true
    } else if idx < 524 {
        view.dom().contains(n.indirect_blk_ptr)
    } else {
        &&& view.dom().contains(n.double_indirect_blk_ptr)
        &&& second_table(view, n, idx) != 0 ==> view.dom().contains(second_table(view, n, idx))
    }
}

/// Byte `pos` of the content of inode `n`.
pub open spec fn file_byte(view: Map<u64, Seq<u8>>, n: RawINode, pos: int) -> u8 {
    view[file_blk(view, n, pos / 4096)][pos % 4096]
}

/// Byte `pos` of the content of inode `n` can be read from cached blocks.
pub open spec fn byte_known(view: Map<u64, Seq<u8>>, n: RawINode, pos: int) -> bool {
    &&& walk_known(view, n, pos / 4096)
    &&& view.dom().contains(file_blk(view, n, pos / 4096))
}

/// The `len` bytes of inode `n` from `offset` on lie in cached blocks
/// that its pointers reach, with no pointer missing on the way.
pub open spec fn bytes_ready(view: Map<u64, Seq<u8>>, n: RawINode, offset: int, len: int) -> bool {
    forall|q: int|
        offset <= q < offset + len ==> #[trigger] byte_known(view, n, q) && file_blk(view, n, q / 4096) != 0
}

/// A byte of a ready stretch is known and its block is in place.
pub proof fn lemma_ready_at(view: Map<u64, Seq<u8>>, n: RawINode, offset: int, len: int, q: int)
    requires
        bytes_ready(view, n, offset, len),
        offset <= q < offset + len,
    ensures
        byte_known(view, n, q),
        file_blk(view, n, q / 4096) != 0,
{
    assert(byte_known(view, n, q) && file_blk(view, n, q / 4096) != 0);
}

/// A ready stretch stays ready when more blocks are read in.
pub proof fn lemma_ready_extends(a: Map<u64, Seq<u8>>, b: Map<u64, Seq<u8>>, n: RawINode, offset: int, len: int)
    requires
        bytes_ready(a, n, offset, len),
        extends(a, b),
        0 <= offset,
    ensures
        bytes_ready(b, n, offset, len),
{
    assert forall|q: int| offset <= q < offset + len implies #[trigger] byte_known(b, n, q) && file_blk(b, n, q / 4096)
        != 0 by {
        lemma_ready_at(a, n, offset, len, q);
        lemma_extends_keeps_byte_pub(a, b, n, q);
    }
}

/// File blocks `lo` up to `hi` of inode `n` all have a block, cached.
pub open spec fn blocks_in_place(view: Map<u64, Seq<u8>>, n: RawINode, lo: int, hi: int) -> bool {
    forall|j: int|
        lo <= j < hi ==> #[trigger] file_blk(view, n, j) != 0 && view.dom().contains(file_blk(view, n, j))
}

/// The number of bytes a read of `want` bytes at `offset` gives: it stops
/// at the end of the file and at the largest file size.
pub open spec fn read_len(size: int, offset: int, want: int) -> int {
    let avail = if size - offset < want {
        size - offset
    } else {
        want
    };
    if offset >= MAX_FILE_SIZE {
        0
    } else if MAX_FILE_SIZE - offset < avail {
        MAX_FILE_SIZE - offset
    } else {
        avail
    }
}

/// The number of bytes a write of `want` bytes at `offset` takes: it stops
/// at the largest file size.
pub open spec fn write_len(offset: int, want: int) -> int {
    if offset >= MAX_FILE_SIZE {
        0
    } else if MAX_FILE_SIZE - offset < want {
        MAX_FILE_SIZE - offset
    } else {
        want
    }
}

proof fn lemma_extends_keeps_walk(a: Map<u64, Seq<u8>>, b: Map<u64, Seq<u8>>, n: RawINode, idx: int)
    requires
        extends(a, b),
        walk_known(a, n, idx),
    ensures
        walk_known(b, n, idx),
        file_blk(b, n, idx) == file_blk(a, n, idx),
{
    if idx >= 524 {
        assert(b[n.double_indirect_blk_ptr] == a[n.double_indirect_blk_ptr]);
        assert(second_table(b, n, idx) == second_table(a, n, idx));
        if second_table(a, n, idx) != 0 {
            assert(a.dom().contains(second_table(a, n, idx)));
        }
    } else if idx >= 12 {
        assert(a.dom().contains(n.indirect_blk_ptr));
    }
}

proof fn lemma_extends_keeps_byte(a: Map<u64, Seq<u8>>, b: Map<u64, Seq<u8>>, n: RawINode, pos: int)
    requires
        extends(a, b),
        byte_known(a, n, pos),
        pos >= 0,
    ensures
        byte_known(b, n, pos),
        file_byte(b, n, pos) == file_byte(a, n, pos),
        file_blk(b, n, pos / 4096) == file_blk(a, n, pos / 4096),
{
    let idx = pos / 4096;
    if idx >= 524 {
        assert(a.dom().contains(n.double_indirect_blk_ptr));
        assert(b[n.double_indirect_blk_ptr] == a[n.double_indirect_blk_ptr]);
        assert(second_table(b, n, idx) == second_table(a, n, idx));
        if second_table(a, n, idx) != 0 {
            assert(a.dom().contains(second_table(a, n, idx)));
        }
    } else if idx >= 12 {
        assert(a.dom().contains(n.indirect_blk_ptr));
    }
    assert(a.dom().contains(file_blk(a, n, idx)));
}

proof fn lemma_in_block(off: int, k: int)
    requires
        off >= 0,
        0 <= k < 4096 - off % 4096,
    ensures
        (off + k) / 4096 == off / 4096,
        (off + k) % 4096 == off % 4096 + k,
{
    assert((off + k) / 4096 == off / 4096 && (off + k) % 4096 == off % 4096 + k) by (nonlinear_arith)
        requires
            off >= 0,
            0 <= k < 4096 - off % 4096,
    ;
}

proof fn lemma_chunk_below_max(off: int, len: int)
    requires
        0 <= off < MAX_FILE_SIZE,
        0 <= len <= 4096 - off % 4096,
    ensures
        off + len <= MAX_FILE_SIZE,
{
    assert(off + len <= MAX_FILE_SIZE) by (nonlinear_arith)
        requires
            0 <= off < 1_075_888_128,
            0 <= len <= 4096 - off % 4096,
    ;
}

/// The message of a read of an inode of unknown type.
pub open spec fn read_unknown_msg() -> Seq<char> {
    "attempts to read data to an unknown inode."@
}

/// The message of a read of a device inode.
pub open spec fn read_device_msg() -> Seq<char> {
    "attempts to read data a device inode."@
}

/// The message of a write to an inode of unknown type.
pub open spec fn write_unknown_msg() -> Seq<char> {
    "attempts to write data to an unknown inode."@
}

/// The message of a write to a device inode.
pub open spec fn write_device_msg() -> Seq<char> {
    "attempts to write data a device inode."@
}

/// Where the pointer to a data block sits: in the inode's direct
/// pointers, or in a slot of a table block.
#[derive(Debug, Clone, Copy, PartialEq, Eq, Structural)]
pub enum BlkSlot {
    Direct(usize),
    Table(u64, usize),
}

/// Where the pointer to file block `idx` sits, once its tables exist.
pub open spec fn slot_of(view: Map<u64, Seq<u8>>, n: RawINode, idx: int) -> BlkSlot {
    if idx < 12 {
        BlkSlot::Direct(idx as usize)
    } else if idx < 524 {
        BlkSlot::Table(n.indirect_blk_ptr, (idx - 12) as usize)
    } else {
        BlkSlot::Table(second_table(view, n, idx), ((idx - 524) % 512) as usize)
    }
}

/// The blocks of `n` from file block `lo` on can be freed with nothing
/// read from the device: its blocks up to its end are laid out soundly
/// over the data bitmap at `start` (so each table and each bitmap block
/// they need is cached), and each table that the freeing frees is a
/// marked data block whose bitmap block is cached.
pub open spec fn free_ready(view: Map<u64, Seq<u8>>, n: RawINode, start: u64, ds: int, nblks: int, lo: int) -> bool {
    &&& range_sound(view, n, start, ds, nblks, 0, blocks_of(n.size as int))
    &&& blocks_of(n.size as int) <= max_file_blocks()
    &&& lo <= 524 && n.double_indirect_blk_ptr != 0 ==> blk_marked(view, start, ds, nblks, n.double_indirect_blk_ptr)
    &&& lo <= 12 && n.indirect_blk_ptr != 0 ==> blk_marked(view, start, ds, nblks, n.indirect_blk_ptr)
}

/// No cached block left the cache.
pub open spec fn dom_kept(a: Map<u64, Seq<u8>>, b: Map<u64, Seq<u8>>) -> bool {
    forall|x: u64| #[trigger] a.dom().contains(x) ==> b.dom().contains(x)
}

/// The tables on the way to file block `idx` exist and are cached.
pub open spec fn tables_ready(view: Map<u64, Seq<u8>>, n: RawINode, idx: int) -> bool {
    if idx < 12 {
        true
    } else if idx < 524 {
        n.indirect_blk_ptr != 0 && view.dom().contains(n.indirect_blk_ptr)
    } else {
        &&& n.double_indirect_blk_ptr != 0
        &&& view.dom().contains(n.double_indirect_blk_ptr)
        &&& second_table(view, n, idx) != 0
        &&& view.dom().contains(second_table(view, n, idx))
    }
}

/// `v2` and `n2` are `v` and `n` after free block `b` went into the slot of
/// file block `idx`: its bit in the data bitmap at `start` (whose bit 0 is
/// block `ds`) was set first, and then the slot was written.
pub open spec fn alloc_into(
    v: Map<u64, Seq<u8>>,
    v2: Map<u64, Seq<u8>>,
    n: RawINode,
    n2: RawINode,
    idx: int,
    b: u64,
    start: u64,
    ds: int,
) -> bool {
    &&& n2.indirect_blk_ptr == n.indirect_blk_ptr
    &&& n2.double_indirect_blk_ptr == n.double_indirect_blk_ptr
    &&& n2.direct_blk_ptrs@ == if idx < 12 {
        n.direct_blk_ptrs@.update(idx, b)
    } else {
        n.direct_blk_ptrs@
    }
    &&& exists|v1: Map<u64, Seq<u8>>| #[trigger]
        bit_flipped(v, v1, start, b - ds, true) && match slot_of(v, n, idx) {
            BlkSlot::Direct(_) => v2 == v1,
            BlkSlot::Table(t, i) => written(v1, v2, t, 8 * i, le_bytes(b as nat, 8)),
        }
}

/// `v2` and `n2` are `v` and `n` after data block `b` of file block `idx`
/// was freed: its bit in the data bitmap at `start` (whose bit 0 is block
/// `ds`) was cleared first, and then the slot of `idx` was emptied.
pub open spec fn freed_from(
    v: Map<u64, Seq<u8>>,
    v2: Map<u64, Seq<u8>>,
    n: RawINode,
    n2: RawINode,
    idx: int,
    b: u64,
    start: u64,
    ds: int,
) -> bool {
    &&& n2.indirect_blk_ptr == n.indirect_blk_ptr
    &&& n2.double_indirect_blk_ptr == n.double_indirect_blk_ptr
    &&& n2.direct_blk_ptrs@ == if idx < 12 {
        n.direct_blk_ptrs@.update(idx, 0)
    } else {
        n.direct_blk_ptrs@
    }
    &&& exists|v1: Map<u64, Seq<u8>>| #[trigger]
        bit_flipped(v, v1, start, b - ds, false) && match slot_of(v, n, idx) {
            BlkSlot::Direct(_) => v2 == v1,
            BlkSlot::Table(t, i) => written(v1, v2, t, 8 * i, le_bytes(0, 8)),
        }
}

/// The tables that freeing from file block `lo` on gives back are
/// reached by file blocks before `hi`: an indirect table only where the
/// blocks reach the indirect region, a doubly indirect one only where
/// they reach the doubly indirect region.
pub open spec fn tables_in_range(n: RawINode, lo: int, hi: int) -> bool {
    &&& lo <= 12 && n.indirect_blk_ptr != 0 ==> hi > 12
    &&& lo <= 524 && n.double_indirect_blk_ptr != 0 ==> hi > 524
}

/// Two inodes agree on their type, link count and device number.
pub open spec fn same_meta(a: RawINode, b: RawINode) -> bool {
    &&& a.typ == b.typ
    &&& a.nlink == b.nlink
    &&& a.dev_no == b.dev_no
}

/// A file system after an operation on it: still consistent, with the
/// same layout, over the same device.
pub open spec fn fs_same_layout<D: BlockDevice, A: BlockBufferAllocator>(a: EfsFileSystem<D, A>, b: EfsFileSystem<D, A>) -> bool {
    &&& b.wf()
    &&& b.superblock == a.superblock
    &&& b.inode_bitmap == a.inode_bitmap
    &&& b.data_bitmap == a.data_bitmap
    &&& b.cache.device() == a.cache.device()
}

/// Reading more blocks in keeps what a known byte of a file is.
pub proof fn lemma_extends_keeps_byte_pub(a: Map<u64, Seq<u8>>, b: Map<u64, Seq<u8>>, n: RawINode, pos: int)
    requires
        extends(a, b),
        byte_known(a, n, pos),
        pos >= 0,
    ensures
        byte_known(b, n, pos),
        file_byte(b, n, pos) == file_byte(a, n, pos),
        file_blk(b, n, pos / 4096) == file_blk(a, n, pos / 4096),
{
    lemma_extends_keeps_byte(a, b, n, pos);
}

impl RawINode {
    /// The data block that holds the byte at `offset`. A missing pointer is
    /// `InvalidArgument`; an offset past what the pointers reach is
    /// `FileTooLarge`.
    pub fn bmap<D: BlockDevice, A: BlockBufferAllocator>(&self, fs: &mut EfsFileSystem<D, A>, offset: u64) -> (r:
        Result<u64, FsError>)
        requires
            old(fs).wf(),
        ensures
            final(fs).wf(),
            final(fs).superblock == old(fs).superblock,
            final(fs).inode_bitmap == old(fs).inode_bitmap,
            final(fs).data_bitmap == old(fs).data_bitmap,
            final(fs).cache.device() == old(fs).cache.device(),
            extends(old(fs).cache.view(), final(fs).cache.view()),
            r matches Ok(b) ==> (offset as int / 4096) < max_file_blocks() && b == file_blk(
                final(fs).cache.view(),
                *self,
                (offset as int / 4096),
            ) && b != 0 && walk_known(final(fs).cache.view(), *self, (offset as int / 4096)),
            r matches Err(e) ==> e.kind == FsErrorKind::InvalidArgument || e.kind
                == FsErrorKind::FileTooLarge || e.kind == FsErrorKind::OutOfMemory || e.kind
                == FsErrorKind::IOError,
            r matches Err(e) && e.kind == FsErrorKind::InvalidArgument ==> (offset as int / 4096)
                < max_file_blocks() && file_blk(final(fs).cache.view(), *self, (offset as int / 4096)) == 0
                && walk_known(final(fs).cache.view(), *self, (offset as int / 4096)),
            r matches Err(e) && e.kind == FsErrorKind::FileTooLarge ==> (offset as int / 4096)
                >= max_file_blocks(),
            (offset as int / 4096) >= max_file_blocks() ==> r is Err,
            (offset as int / 4096) < max_file_blocks() && walk_known(old(fs).cache.view(), *self, offset as int / 4096)
                && file_blk(old(fs).cache.view(), *self, offset as int / 4096) != 0 ==> r == Ok::<u64, FsError>(
                file_blk(old(fs).cache.view(), *self, offset as int / 4096),
            ),
    {
        let ghost v0 = fs.cache.view();
        let idx = offset / (BLOCK_SIZE as u64);
        if idx < NUM_DIRECT_DATA_BLKS as u64 {
            let b = self.direct_blk_ptrs[idx as usize];
            if b == INVALID_DATA_BLOCK_NO {
                return Err(FsError::from(FsErrorKind::InvalidArgument));
            }
            return Ok(b);
        }
        let idx = idx - NUM_DIRECT_DATA_BLKS as u64;
        if idx < BLK_NUMS_PER_BLOCK as u64 {
            let b = match fs.cache.read_u64(self.indirect_blk_ptr, 8 * idx as usize) {
                Ok(b) => b,
                Err(e) => {
                    return Err(e);
                },
            };
            if b == INVALID_DATA_BLOCK_NO {
                return Err(FsError::from(FsErrorKind::InvalidArgument));
            }
            return Ok(b);
        }
        let idx = idx - BLK_NUMS_PER_BLOCK as u64;
        let next = idx / BLK_NUMS_PER_BLOCK as u64;
        let within = idx % BLK_NUMS_PER_BLOCK as u64;
        match fs.cache.get_block(self.double_indirect_blk_ptr) {
            Ok(_) => {},
            Err(e) => {
                return Err(e);
            },
        }
        if next >= BLK_NUMS_PER_BLOCK as u64 {
            return Err(FsError::from(FsErrorKind::FileTooLarge));
        }
        let ghost v1 = fs.cache.view();
        let t2 = match fs.cache.read_u64(self.double_indirect_blk_ptr, 8 * next as usize) {
            Ok(t) => t,
            Err(e) => {
                return Err(e);
            },
        };
        proof {
            assert(v1 == fs.cache.view());
        }
        if t2 == INVALID_DATA_BLOCK_NO {
            return Err(FsError::from(FsErrorKind::InvalidArgument));
        }
        let ghost v2 = fs.cache.view();
        let b = match fs.cache.read_u64(t2, 8 * within as usize) {
            Ok(b) => b,
            Err(e) => {
                return Err(e);
            },
        };
        proof {
            let v3 = fs.cache.view();
            assert(v2.dom().contains(self.double_indirect_blk_ptr));
            assert(v3[self.double_indirect_blk_ptr] == v2[self.double_indirect_blk_ptr]);
            assert(second_table(v3, *self, ((offset as int / 4096)) as int) == t2);
        }
        if b == INVALID_DATA_BLOCK_NO {
            return Err(FsError::from(FsErrorKind::InvalidArgument));
        }
        Ok(b)
    }

    /// Reads into `dst` from `offset`: as many bytes as `dst` holds, the
    /// file has from `offset` on, and the largest file size allows. An
    /// offset past the end is `InvalidArgument`; an inode of unknown or
    /// device type is `InvalidData`.
    #[verifier::spinoff_prover]
    #[verifier::rlimit(40)]
    pub fn read<D: BlockDevice, A: BlockBufferAllocator>(
        &self,
        fs: &mut EfsFileSystem<D, A>,
        offset: u64,
        dst: &mut [u8],
    ) -> (r: Result<u64, FsError>)
        requires
            old(fs).wf(),
        ensures
            final(fs).wf(),
            final(fs).superblock == old(fs).superblock,
            final(fs).inode_bitmap == old(fs).inode_bitmap,
            final(fs).data_bitmap == old(fs).data_bitmap,
            final(fs).cache.device() == old(fs).cache.device(),
            extends(old(fs).cache.view(), final(fs).cache.view()),
            final(dst)@.len() == old(dst)@.len(),
            offset > self.size ==> (r matches Err(e) && e.kind == FsErrorKind::InvalidArgument)
                && final(dst)@ == old(dst)@,
            offset <= self.size && spec_file_type(*self) == FileType::Unknown ==> (r matches Err(e)
                && e.kind == FsErrorKind::InvalidData && opt_str_view(e.msg) == Some(read_unknown_msg()))
                && final(dst)@ == old(dst)@,
            offset <= self.size && spec_file_type(*self) == FileType::Device ==> (r matches Err(e)
                && e.kind == FsErrorKind::InvalidData && opt_str_view(e.msg) == Some(read_device_msg()))
                && final(dst)@ == old(dst)@,
            r matches Ok(n) ==> n == read_len(self.size as int, offset as int, old(dst)@.len() as int)
                && (forall|q: int| offset <= q < offset + n ==> #[trigger] byte_known(final(fs).cache.view(), *self, q))
                && (forall|p: int|
                0 <= p < n ==> #[trigger] final(dst)@[p] == file_byte(final(fs).cache.view(), *self, offset + p))
                && (forall|p: int|
                n <= p < old(dst)@.len() ==> #[trigger] final(dst)@[p] == old(dst)@[p]),
            r matches Err(e) ==> e.kind == FsErrorKind::InvalidArgument || e.kind
                == FsErrorKind::InvalidData || e.kind == FsErrorKind::FileTooLarge || e.kind
                == FsErrorKind::OutOfMemory || e.kind == FsErrorKind::IOError,
            offset <= self.size && spec_file_type(*self) != FileType::Unknown && spec_file_type(*self)
                != FileType::Device && bytes_ready(
                old(fs).cache.view(),
                *self,
                offset as int,
                read_len(self.size as int, offset as int, old(dst)@.len() as int),
            ) ==> r is Ok,
    {
        let ghost rl = read_len(self.size as int, offset as int, dst@.len() as int);
        let ghost ready = bytes_ready(fs.cache.view(), *self, offset as int, rl);
        if offset > self.size {
            return Err(FsError::from(FsErrorKind::InvalidArgument));
        }
        match self.file_type() {
            FileType::File | FileType::Symlink | FileType::Directory => {},
            FileType::Unknown => {
                return Err(
                    FsError::with_fmt_args(FsErrorKind::InvalidData, "attempts to read data to an unknown inode."),
                );
            },
            FileType::Device => {
                return Err(
                    FsError::with_fmt_args(FsErrorKind::InvalidData, "attempts to read data a device inode."),
                );
            },
        }
        let dlen = dst.len();
        let remaining = self.size - offset;
        let mut done: u64 = 0;
        let mut pos: usize = 0;
        let mut off = offset;
        while pos < dlen && done < remaining
            invariant
                fs.wf(),
                fs.superblock == old(fs).superblock,
                fs.inode_bitmap == old(fs).inode_bitmap,
                fs.data_bitmap == old(fs).data_bitmap,
                fs.cache.device() == old(fs).cache.device(),
                extends(old(fs).cache.view(), fs.cache.view()),
                dlen == dst@.len(),
                dst@.len() == old(dst)@.len(),
                offset <= self.size,
                spec_file_type(*self) != FileType::Unknown,
                spec_file_type(*self) != FileType::Device,
                remaining == self.size - offset,
                pos == done,
                done <= remaining,
                pos <= dlen,
                off == offset + done,
                offset < MAX_FILE_SIZE ==> off <= MAX_FILE_SIZE,
                offset >= MAX_FILE_SIZE ==> done == 0,
                forall|q: int| offset <= q < offset + pos ==> #[trigger] byte_known(fs.cache.view(), *self, q),
                forall|p: int|
                    0 <= p < pos ==> #[trigger] dst@[p] == file_byte(fs.cache.view(), *self, offset + p),
                forall|p: int| pos <= p < dlen ==> #[trigger] dst@[p] == old(dst)@[p],
                rl == read_len(self.size as int, offset as int, dlen as int),
                ready == bytes_ready(old(fs).cache.view(), *self, offset as int, rl),
                ready ==> bytes_ready(fs.cache.view(), *self, offset as int, rl),
            decreases dlen - pos,
        {
            if off >= MAX_FILE_SIZE {
                proof {
                    let want = old(dst)@.len() as int;
                    let size = self.size as int;
                    if offset < MAX_FILE_SIZE {
                        assert(off == MAX_FILE_SIZE);
                        assert(done == MAX_FILE_SIZE - offset);
                        assert(done < want && done < size - offset);
                    }
                    assert(done == read_len(size, offset as int, want));
                }
                return Ok(done);
            }
            let ghost v0 = fs.cache.view();
            proof {
                if ready {
                    assert(done < rl) by {
                        assert(done < remaining);
                        assert(pos < dlen);
                        assert(offset + done < MAX_FILE_SIZE);
                    }
                    assert(offset <= off < offset + rl);
                    lemma_ready_at(v0, *self, offset as int, rl, off as int);
                    assert(off as int / 4096 < max_file_blocks());
                }
            }
            let bno = match self.bmap(fs, off) {
                Ok(b) => b,
                Err(e) => {
                    return Err(e);
                },
            };
            let b_off = (off % (BLOCK_SIZE as u64)) as usize;
            let mut len = BLOCK_SIZE - b_off;
            if dlen - pos < len {
                len = dlen - pos;
            }
            if remaining - done < len as u64 {
                len = (remaining - done) as usize;
            }
            let ghost v1 = fs.cache.view();
            let ghost d0 = dst@;
            proof {
                if ready {
                    assert(v0.dom().contains(bno));
                    assert(v1.dom().contains(bno));
                }
            }
            match fs.cache.copy_out(bno, b_off, dst, pos, len) {
                Ok(()) => {},
                Err(e) => {
                    return Err(e);
                },
            }
            proof {
                let v2 = fs.cache.view();
                fs.cache.lemma_view_block_sized();
                lemma_chunk_below_max(off as int, len as int);
                assert forall|p: int| 0 <= p < pos + len implies byte_known(v2, *self, offset + p) && #[trigger] dst@[p]
                    == file_byte(v2, *self, offset + p) by {
                    if p < pos {
                        assert(d0[p] == dst@[p]);
                        assert(byte_known(v0, *self, offset + p));
                        lemma_extends_keeps_byte(v0, v2, *self, offset + p);
                        assert(dst@[p] == d0[p]);
                    } else {
                        lemma_in_block(off as int, p - pos);
                        assert((offset + p) / 4096 == off / 4096);
                        assert(walk_known(v1, *self, off as int / 4096));
                        lemma_extends_keeps_walk(v1, v2, *self, off as int / 4096);
                        assert(file_blk(v2, *self, (offset + p) / 4096) == bno);
                        assert(v2.dom().contains(bno));
                        assert(dst@[p] == v2[bno].subrange(b_off as int, b_off + len)[p - pos]);
                    }
                }
                assert forall|q: int| offset <= q < offset + pos + len implies #[trigger] byte_known(v2, *self, q) by {
                    let p = q - offset;
                    assert(dst@[p] == file_byte(v2, *self, offset + p));
                }
                assert forall|p: int| pos + len <= p < dlen implies #[trigger] dst@[p] == old(dst)@[p] by {
                    assert(dst@[p] == d0[p]);
                }
                if ready {
                    assert forall|q: int| offset <= q < offset + rl implies #[trigger] byte_known(v2, *self, q)
                        && file_blk(v2, *self, q / 4096) != 0 by {
                        lemma_ready_at(v0, *self, offset as int, rl, q);
                        lemma_extends_keeps_byte_pub(v0, v2, *self, q);
                    }
                }
            }
            pos = pos + len;
            done = done + len as u64;
            off = off + len as u64;
        }
        proof {
            let want = old(dst)@.len() as int;
            let size = self.size as int;
            assert(pos == dlen || done == remaining);
            if offset < MAX_FILE_SIZE {
                assert(done <= MAX_FILE_SIZE - offset);
            }
            assert(done == read_len(size, offset as int, want));
        }
        Ok(done)
    }

    /// Finds where the pointer to the data block of the byte at `offset`
    /// sits. A missing table block is allocated when `alloc` holds, and is
    /// `InvalidArgument` otherwise; an offset past what the pointers reach
    /// is `FileTooLarge`.
    pub fn bmap_walk_mut<D: BlockDevice, A: BlockBufferAllocator>(
        &mut self,
        fs: &mut EfsFileSystem<D, A>,
        offset: u64,
        alloc: bool,
    ) -> (r: Result<BlkSlot, FsError>)
        requires
            old(fs).wf(),
        ensures
            fs_same_layout(*old(fs), *final(fs)),
            same_meta(*old(self), *final(self)),
            final(self).size == old(self).size,
            final(self).direct_blk_ptrs == old(self).direct_blk_ptrs,
            !alloc ==> *final(self) == *old(self),
            r matches Ok(BlkSlot::Direct(i)) ==> i < 12 && i == offset / 4096,
            r matches Ok(BlkSlot::Table(t, i)) ==> i < 512 && t != 0,
            r matches Err(e) ==> e.kind == FsErrorKind::InvalidArgument || e.kind
                == FsErrorKind::FileTooLarge || e.kind == FsErrorKind::NoSpaceLeft || e.kind
                == FsErrorKind::OutOfMemory || e.kind == FsErrorKind::IOError,
            r matches Err(e) && e.kind == FsErrorKind::FileTooLarge ==> offset / 4096 >= max_file_blocks(),
            r is Ok ==> offset / 4096 < max_file_blocks(),
            !alloc ==> extends(old(fs).cache.view(), final(fs).cache.view()),
            tables_ready(old(fs).cache.view(), *old(self), (offset / 4096) as int) && offset / 4096 < max_file_blocks()
                ==> r == Ok::<BlkSlot, FsError>(slot_of(old(fs).cache.view(), *old(self), (offset / 4096) as int))
                && *final(self) == *old(self) && final(fs).cache.view() == old(fs).cache.view(),
    {
        let ghost v0 = fs.cache.view();
        let idx = offset / (BLOCK_SIZE as u64);
        if idx < NUM_DIRECT_DATA_BLKS as u64 {
            return Ok(BlkSlot::Direct(idx as usize));
        }
        let idx = idx - NUM_DIRECT_DATA_BLKS as u64;
        if idx < BLK_NUMS_PER_BLOCK as u64 {
            if self.indirect_blk_ptr == INVALID_DATA_BLOCK_NO {
                if !alloc {
                    return Err(FsError::from(FsErrorKind::InvalidArgument));
                }
                match fs.alloc_data_block() {
                    Ok(b) => {
                        self.indirect_blk_ptr = b;
                    },
                    Err(e) => {
                        return Err(e);
                    },
                }
            }
            match fs.cache.get_block(self.indirect_blk_ptr) {
                Ok(_) => {},
                Err(e) => {
                    return Err(e);
                },
            }
            return Ok(BlkSlot::Table(self.indirect_blk_ptr, idx as usize));
        }
        let idx = idx - BLK_NUMS_PER_BLOCK as u64;
        if self.double_indirect_blk_ptr == INVALID_DATA_BLOCK_NO {
            if !alloc {
                return Err(FsError::from(FsErrorKind::InvalidArgument));
            }
            match fs.alloc_data_block() {
                Ok(b) => {
                    self.double_indirect_blk_ptr = b;
                },
                Err(e) => {
                    return Err(e);
                },
            }
        }
        match fs.cache.get_block(self.double_indirect_blk_ptr) {
            Ok(_) => {},
            Err(e) => {
                return Err(e);
            },
        }
        let next = idx / BLK_NUMS_PER_BLOCK as u64;
        let within = idx % BLK_NUMS_PER_BLOCK as u64;
        if next >= BLK_NUMS_PER_BLOCK as u64 {
            return Err(FsError::from(FsErrorKind::FileTooLarge));
        }
        let t2 = match fs.cache.read_u64(self.double_indirect_blk_ptr, 8 * next as usize) {
            Ok(t) => t,
            Err(e) => {
                return Err(e);
            },
        };
        proof {
            if tables_ready(v0, *old(self), (offset / 4096) as int) && offset / 4096 < max_file_blocks() {
                assert(fs.cache.view() =~= v0);
                assert(t2 == second_table(v0, *old(self), (offset / 4096) as int));
            }
        }
        let t2 = if t2 == INVALID_DATA_BLOCK_NO {
            if !alloc {
                return Err(FsError::from(FsErrorKind::InvalidArgument));
            }
            let nb = match fs.alloc_data_block() {
                Ok(b) => b,
                Err(e) => {
                    return Err(e);
                },
            };
            match fs.cache.write_u64(self.double_indirect_blk_ptr, 8 * next as usize, nb) {
                Ok(()) => {},
                Err(e) => {
                    return Err(e);
                },
            }
            nb
        } else {
            t2
        };
        match fs.cache.get_block(t2) {
            Ok(_) => {},
            Err(e) => {
                return Err(e);
            },
        }
        Ok(BlkSlot::Table(t2, within as usize))
    }

    /// The pointer in `slot`.
    fn read_slot<D: BlockDevice, A: BlockBufferAllocator>(
        &self,
        fs: &mut EfsFileSystem<D, A>,
        slot: BlkSlot,
    ) -> (r: Result<u64, FsError>)
        requires
            old(fs).wf(),
            slot matches BlkSlot::Direct(i) ==> i < 12,
            slot matches BlkSlot::Table(t, i) ==> i < 512,
        ensures
            fs_same_layout(*old(fs), *final(fs)),
            extends(old(fs).cache.view(), final(fs).cache.view()),
            slot matches BlkSlot::Direct(i) ==> r == Ok::<u64, FsError>(self.direct_blk_ptrs@[i as int])
                && final(fs).cache.view() == old(fs).cache.view(),
            slot matches BlkSlot::Table(t, i) ==> (old(fs).cache.view().dom().contains(t) ==> r == Ok::<
                u64,
                FsError,
            >(table_entry(old(fs).cache.view(), t, i as int)) && final(fs).cache.view() == old(
                fs,
            ).cache.view()),
            r matches Err(e) ==> e.kind == FsErrorKind::OutOfMemory || e.kind == FsErrorKind::IOError,
    {
        let ghost v0 = fs.cache.view();
        match slot {
            BlkSlot::Direct(i) => Ok(self.direct_blk_ptrs[i]),
            BlkSlot::Table(t, i) => {
                let r = fs.cache.read_u64(t, 8 * i);
                proof {
                    if v0.dom().contains(t) {
                        assert(fs.cache.view() =~= v0);
                    }
                }
                r
            },
        }
    }

    /// Puts `b` in `slot`.
    fn write_slot<D: BlockDevice, A: BlockBufferAllocator>(
        &mut self,
        fs: &mut EfsFileSystem<D, A>,
        slot: BlkSlot,
        b: u64,
    ) -> (r: Result<(), FsError>)
        requires
            old(fs).wf(),
            slot matches BlkSlot::Direct(i) ==> i < 12,
            slot matches BlkSlot::Table(t, i) ==> i < 512,
        ensures
            fs_same_layout(*old(fs), *final(fs)),
            same_meta(*old(self), *final(self)),
            final(self).size == old(self).size,
            final(self).indirect_blk_ptr == old(self).indirect_blk_ptr,
            final(self).double_indirect_blk_ptr == old(self).double_indirect_blk_ptr,
            slot matches BlkSlot::Direct(i) ==> r is Ok && final(self).direct_blk_ptrs@ == old(
                self,
            ).direct_blk_ptrs@.update(i as int, b) && final(fs).cache.view() == old(fs).cache.view(),
            slot matches BlkSlot::Table(t, i) ==> final(self).direct_blk_ptrs == old(self).direct_blk_ptrs,
            slot matches BlkSlot::Table(t, i) ==> (r is Ok ==> written(
                old(fs).cache.view(),
                final(fs).cache.view(),
                t,
                8 * i,
                le_bytes(b as nat, 8),
            )) && (old(fs).cache.view().dom().contains(t) ==> r is Ok),
            r matches Err(e) ==> e.kind == FsErrorKind::OutOfMemory || e.kind == FsErrorKind::IOError,
            r is Err ==> final(fs).cache.view() == old(fs).cache.view(),
    {
        match slot {
            BlkSlot::Direct(i) => {
                self.direct_blk_ptrs[i] = b;
                Ok(())
            },
            BlkSlot::Table(t, i) => fs.cache.write_u64(t, 8 * i, b),
        }
    }

    /// The data block of the byte at `offset`, allocated (with any missing
    /// table block) when there is none yet.
    pub fn bmap_and_alloc_if_need<D: BlockDevice, A: BlockBufferAllocator>(
        &mut self,
        fs: &mut EfsFileSystem<D, A>,
        offset: u64,
    ) -> (r: Result<u64, FsError>)
        requires
            old(fs).wf(),
        ensures
            fs_same_layout(*old(fs), *final(fs)),
            same_meta(*old(self), *final(self)),
            final(self).size == old(self).size,
            r matches Ok(b) ==> b != 0,
            r matches Err(e) ==> e.kind == FsErrorKind::FileTooLarge || e.kind
                == FsErrorKind::NoSpaceLeft || e.kind == FsErrorKind::OutOfMemory || e.kind
                == FsErrorKind::IOError || e.kind == FsErrorKind::InvalidArgument,
            tables_ready(old(fs).cache.view(), *old(self), (offset / 4096) as int) && offset / 4096
                < max_file_blocks() ==> (r matches Ok(b) ==> (file_blk(
                old(fs).cache.view(),
                *old(self),
                (offset / 4096) as int,
            ) != 0 && b == file_blk(old(fs).cache.view(), *old(self), (offset / 4096) as int)
                && *final(self) == *old(self) && final(fs).cache.view() == old(fs).cache.view())
                || (file_blk(old(fs).cache.view(), *old(self), (offset / 4096) as int) == 0
                && old(fs).data_start() <= b < old(fs).data_start() + old(fs).superblock.data_blocks
                && (old(fs).cache.view().dom().contains(
                bit_blk(old(fs).data_bitmap.start_blk_no, b - old(fs).data_start()),
            ) ==> !bit_set(old(fs).cache.view(), old(fs).data_bitmap.start_blk_no, b - old(fs).data_start()))
                && alloc_into(
                old(fs).cache.view(),
                final(fs).cache.view(),
                *old(self),
                *final(self),
                (offset / 4096) as int,
                b,
                old(fs).data_bitmap.start_blk_no,
                old(fs).data_start(),
            ))),
            tables_ready(old(fs).cache.view(), *old(self), (offset / 4096) as int) && offset / 4096
                < max_file_blocks() && file_blk(old(fs).cache.view(), *old(self), (offset / 4096) as int) != 0 ==> r is Ok,
    {
        let ghost v0 = fs.cache.view();
        let slot = match self.bmap_walk_mut(fs, offset, true) {
            Ok(s) => s,
            Err(e) => {
                return Err(e);
            },
        };
        let cur = match self.read_slot(fs, slot) {
            Ok(b) => b,
            Err(e) => {
                return Err(e);
            },
        };
        if cur != INVALID_DATA_BLOCK_NO {
            return Ok(cur);
        }
        let nb = match fs.alloc_data_block() {
            Ok(b) => b,
            Err(e) => {
                return Err(e);
            },
        };
        let ghost v1 = fs.cache.view();
        let r = match self.write_slot(fs, slot, nb) {
            Ok(()) => Ok(nb),
            Err(e) => Err(e),
        };
        proof {
            let k = (offset / 4096) as int;
            if tables_ready(v0, *old(self), k) && offset / 4096 < max_file_blocks() && r is Ok {
                let start = old(fs).data_bitmap.start_blk_no;
                let ds = old(fs).data_start();
                let nblks = old(fs).superblock.data_blocks as int;
                assert(bit_flipped(v0, v1, start, nb - ds, true));
                if k < 12 {
                    assert(self.direct_blk_ptrs@ =~= old(self).direct_blk_ptrs@.update(k, nb));
                }
                assert(alloc_into(v0, fs.cache.view(), *old(self), *self, k, nb, start, ds));
            }
        }
        r
    }

    /// Writes `src` at `offset`, allocating blocks as needed and growing
    /// the file; stops at the largest file size. An offset past the end is
    /// `InvalidArgument`; an inode of unknown or device type is
    /// `InvalidData`.
    pub fn write<D: BlockDevice, A: BlockBufferAllocator>(
        &mut self,
        fs: &mut EfsFileSystem<D, A>,
        offset: u64,
        src: &[u8],
    ) -> (r: Result<u64, FsError>)
        requires
            old(fs).wf(),
        ensures
            fs_same_layout(*old(fs), *final(fs)),
            same_meta(*old(self), *final(self)),
            offset > old(self).size ==> (r matches Err(e) && e.kind == FsErrorKind::InvalidArgument)
                && *final(self) == *old(self) && final(fs).cache.view() == old(fs).cache.view(),
            offset <= old(self).size && spec_file_type(*old(self)) == FileType::Unknown ==> (r matches Err(e)
                && e.kind == FsErrorKind::InvalidData && opt_str_view(e.msg) == Some(write_unknown_msg()))
                && *final(self) == *old(self) && final(fs).cache.view() == old(fs).cache.view(),
            offset <= old(self).size && spec_file_type(*old(self)) == FileType::Device ==> (r matches Err(e)
                && e.kind == FsErrorKind::InvalidData && opt_str_view(e.msg) == Some(write_device_msg()))
                && *final(self) == *old(self) && final(fs).cache.view() == old(fs).cache.view(),
            r matches Ok(n) ==> n == write_len(offset as int, src@.len() as int) && final(self).size == if offset + n
                > old(self).size {
                offset + n
            } else {
                old(self).size as int
            },
            r matches Err(e) ==> e.kind == FsErrorKind::InvalidArgument || e.kind
                == FsErrorKind::InvalidData || e.kind == FsErrorKind::FileTooLarge || e.kind
                == FsErrorKind::NoSpaceLeft || e.kind == FsErrorKind::OutOfMemory || e.kind
                == FsErrorKind::IOError,
            write_ready(*old(fs), *old(self), offset as int, src@.len() as int) ==> (r matches Ok(n)
                ==> holds_prefix(final(fs).cache.view(), *final(self), offset as int, src@, n as int)
                && write_ready(*final(fs), *final(self), offset as int, src@.len() as int) && kept_outside(
                old(fs).cache.view(),
                final(fs).cache.view(),
                *old(self),
                *final(self),
                offset as int,
                n as int,
                offset as int / 4096,
                write_hi(offset as int, src@.len() as int),
            ) && ptrs_kept(
                old(fs).cache.view(),
                *old(self),
                final(fs).cache.view(),
                *final(self),
                offset as int / 4096,
                write_hi(offset as int, src@.len() as int),
            ) && (forall|x: u64|
                #[trigger] old(fs).cache.view().dom().contains(x) && x < old(fs).data_bitmap.start_blk_no
                    ==> final(fs).cache.view().dom().contains(x) && final(fs).cache.view()[x] == old(
                    fs,
                ).cache.view()[x]) && others_untouched(
                old(fs).cache.view(),
                final(fs).cache.view(),
                *old(self),
                old(fs).data_bitmap.start_blk_no,
                old(fs).data_start(),
                old(fs).superblock.data_blocks as int,
                offset as int / 4096,
                write_hi(offset as int, src@.len() as int),
            ) && marks_kept(
                old(fs).cache.view(),
                final(fs).cache.view(),
                old(fs).data_bitmap.start_blk_no,
                old(fs).data_start(),
                old(fs).superblock.data_blocks as int,
            ) && fresh_blocks(
                old(fs).cache.view(),
                *old(self),
                final(fs).cache.view(),
                *final(self),
                old(fs).data_bitmap.start_blk_no,
                old(fs).data_start(),
                old(fs).superblock.data_blocks as int,
                offset as int / 4096,
                write_hi(offset as int, src@.len() as int),
            )),
            offset <= old(self).size && spec_file_type(*old(self)) != FileType::Unknown && spec_file_type(*old(self))
                != FileType::Device && write_ready(*old(fs), *old(self), offset as int, src@.len() as int)
                && blocks_in_place(
                old(fs).cache.view(),
                *old(self),
                offset as int / 4096,
                write_hi(offset as int, src@.len() as int),
            ) ==> r is Ok,
    {
        if offset > self.size {
            return Err(FsError::from(FsErrorKind::InvalidArgument));
        }
        match self.file_type() {
            FileType::File | FileType::Symlink | FileType::Directory => {},
            FileType::Unknown => {
                return Err(
                    FsError::with_fmt_args(FsErrorKind::InvalidData, "attempts to write data to an unknown inode."),
                );
            },
            FileType::Device => {
                return Err(
                    FsError::with_fmt_args(FsErrorKind::InvalidData, "attempts to write data a device inode."),
                );
            },
        }
        let slen = src.len();
        let mut done: u64 = 0;
        let mut pos: usize = 0;
        let mut off = offset;
        let ghost ready = write_ready(*fs, *self, offset as int, slen as int);
        let ghost start = fs.data_bitmap.start_blk_no;
        let ghost ds = fs.data_start();
        let ghost nblks = fs.superblock.data_blocks as int;
        let ghost hi = write_hi(offset as int, slen as int);
        let ghost full = blocks_in_place(fs.cache.view(), *self, offset as int / 4096, hi);
        proof {
            lemma_holds_prefix_intro(fs.cache.view(), *self, offset as int, src@, 0);
            assert forall|q: int|
                offset / 4096 <= q / 4096 < hi && !(offset <= q < offset + 0) && file_blk(
                    fs.cache.view(),
                    *self,
                    q / 4096,
                ) != 0 && byte_known(fs.cache.view(), *self, q) implies #[trigger] byte_kept(
                fs.cache.view(),
                fs.cache.view(),
                *self,
                *self,
                q,
            ) by {}
            assert forall|x: u64|
                fs.cache.view().dom().contains(x) && blk_marked(fs.cache.view(), start, ds, nblks, x)
                    && !range_uses(fs.cache.view(), *self, offset as int / 4096, hi, x) implies #[trigger] blk_kept(
                fs.cache.view(),
                fs.cache.view(),
                start,
                ds,
                nblks,
                x,
            ) by {}
        }
        while pos < slen
            invariant
                full == blocks_in_place(old(fs).cache.view(), *old(self), offset as int / 4096, hi),
                ready ==> forall|x: u64|
                    #[trigger] old(fs).cache.view().dom().contains(x) ==> fs.cache.view().dom().contains(x),
                ready ==> marks_kept(old(fs).cache.view(), fs.cache.view(), start, ds, nblks),
                ready ==> fresh_blocks(
                    old(fs).cache.view(),
                    *old(self),
                    fs.cache.view(),
                    *self,
                    start,
                    ds,
                    nblks,
                    offset as int / 4096,
                    hi,
                ),
                ready ==> others_untouched(
                    old(fs).cache.view(),
                    fs.cache.view(),
                    *old(self),
                    start,
                    ds,
                    nblks,
                    offset as int / 4096,
                    hi,
                ),
                ready ==> self.indirect_blk_ptr == old(self).indirect_blk_ptr && self.double_indirect_blk_ptr == old(
                    self,
                ).double_indirect_blk_ptr,
                ready ==> forall|j: int|
                    offset as int / 4096 <= j < hi && j >= 524 ==> #[trigger] second_table(fs.cache.view(), *self, j)
                        == second_table(old(fs).cache.view(), *old(self), j),
                ready && pos < slen ==> forall|j: int|
                    off as int / 4096 <= j < hi ==> #[trigger] file_blk(fs.cache.view(), *self, j) == file_blk(
                        old(fs).cache.view(),
                        *old(self),
                        j,
                    ),
                start == old(fs).data_bitmap.start_blk_no,
                ds == old(fs).data_start(),
                nblks == old(fs).superblock.data_blocks,
                hi == write_hi(offset as int, slen as int),
                ready == write_ready(*old(fs), *old(self), offset as int, slen as int),
                ready ==> range_sound(fs.cache.view(), *self, start, ds, nblks, offset as int / 4096, hi),
                ready ==> holds_prefix(fs.cache.view(), *self, offset as int, src@, pos as int),
                ready ==> forall|x: u64| #[trigger]
                    old(fs).cache.view().dom().contains(x) && x < start ==> fs.cache.view().dom().contains(x)
                        && fs.cache.view()[x] == old(fs).cache.view()[x],
                pos > 0 && pos < slen ==> off % 4096 == 0,
                ready ==> kept_outside(
                    old(fs).cache.view(),
                    fs.cache.view(),
                    *old(self),
                    *self,
                    offset as int,
                    pos as int,
                    offset as int / 4096,
                    hi,
                ) && ptrs_kept(old(fs).cache.view(), *old(self), fs.cache.view(), *self, offset as int / 4096, hi),
                fs_same_layout(*old(fs), *fs),
                same_meta(*old(self), *self),
                slen == src@.len(),
                pos == done,
                pos <= slen,
                off == offset + done,
                offset <= old(self).size,
                spec_file_type(*old(self)) != FileType::Unknown,
                spec_file_type(*old(self)) != FileType::Device,
                offset < MAX_FILE_SIZE ==> off <= MAX_FILE_SIZE,
                offset >= MAX_FILE_SIZE ==> done == 0,
                self.size == if offset + done > old(self).size {
                    offset + done
                } else {
                    old(self).size as int
                },
            decreases slen - pos,
        {
            if off >= MAX_FILE_SIZE {
                proof {
                    if offset < MAX_FILE_SIZE {
                        assert(off == MAX_FILE_SIZE);
                    }
                }
                return Ok(done);
            }
            let ghost v0 = fs.cache.view();
            let ghost n0 = *self;
            let ghost k = (off / 4096) as int;
            proof {
                fs.cache.lemma_view_block_sized();
                if ready {
                    let wl = write_len(offset as int, slen as int);
                    assert(k < hi && k < max_file_blocks()) by (nonlinear_arith)
                        requires
                            offset <= off < MAX_FILE_SIZE,
                            off < offset + slen,
                            wl == (if MAX_FILE_SIZE - offset < slen {
                                MAX_FILE_SIZE - offset
                            } else {
                                slen as int
                            }),
                            hi == (offset + wl - 1) / 4096 + 1,
                            k == off / 4096,
                    ;
                    assert(offset as int / 4096 <= k) by (nonlinear_arith)
                        requires
                            offset <= off,
                            k == off / 4096,
                    ;
                    assert(walk_marked(v0, n0, start, ds, nblks, k));
                    if full {
                        assert(file_blk(v0, n0, k) == file_blk(old(fs).cache.view(), *old(self), k));
                        assert(file_blk(old(fs).cache.view(), *old(self), k) != 0);
                        assert(v0.dom().contains(file_blk(v0, n0, k)));
                    }
                }
            }
            let data_bno = match self.bmap_and_alloc_if_need(fs, off) {
                Ok(b) => b,
                Err(e) => {
                    return Err(e);
                },
            };
            let ghost v1 = fs.cache.view();
            let ghost n1 = *self;
            let b_off = (off % (BLOCK_SIZE as u64)) as usize;
            let mut len = BLOCK_SIZE - b_off;
            if slen - pos < len {
                len = slen - pos;
            }
            match fs.cache.copy_in(data_bno, b_off, src, pos, len) {
                Ok(()) => {},
                Err(e) => {
                    return Err(e);
                },
            }
            proof {
                lemma_chunk_below_max(off as int, len as int);
                if ready {
                    lemma_write_chunk(
                        v0,
                        v1,
                        fs.cache.view(),
                        n0,
                        n1,
                        start,
                        ds,
                        nblks,
                        hi,
                        offset as int,
                        src@,
                        pos as int,
                        len as int,
                        k,
                        data_bno,
                    );
                    lemma_keep_step(
                        old(fs).cache.view(),
                        *old(self),
                        v0,
                        n0,
                        fs.cache.view(),
                        n1,
                        start,
                        ds,
                        nblks,
                        offset as int,
                        src@,
                        pos as int,
                        len as int,
                        offset as int / 4096,
                        hi,
                        k,
                        data_bno,
                    );
                    lemma_untouched_step(
                        old(fs).cache.view(),
                        *old(self),
                        v0,
                        n0,
                        fs.cache.view(),
                        start,
                        ds,
                        nblks,
                        offset as int / 4096,
                        hi,
                        k,
                        data_bno,
                    );
                    let v2 = fs.cache.view();
                    assert(marks_kept(old(fs).cache.view(), v2, start, ds, nblks));
                    assert forall|j: int|
                        offset as int / 4096 <= j < hi && file_blk(old(fs).cache.view(), *old(self), j) == 0
                            && #[trigger] file_blk(v2, n1, j) != 0 implies !blk_marked(
                        old(fs).cache.view(),
                        start,
                        ds,
                        nblks,
                        file_blk(v2, n1, j),
                    ) by {
                        if j != k {
                            assert(file_blk(v2, n1, j) == file_blk(v0, n0, j));
                        } else {
                            assert(file_blk(v0, n0, k) == 0);
                            assert(!blk_marked(v0, start, ds, nblks, data_bno));
                        }
                    }
                }
                assert(pos + len < slen ==> (off + len) % 4096 == 0) by (nonlinear_arith)
                    requires
                        b_off == off % 4096,
                        len == 4096 - b_off || len == slen - pos,
                ;
                assert(pos + len < slen ==> (off + len) / 4096 == k + 1) by (nonlinear_arith)
                    requires
                        b_off == off % 4096,
                        len == 4096 - b_off || len == slen - pos,
                        k == off / 4096,
                ;
            }
            pos = pos + len;
            done = done + len as u64;
            off = off + len as u64;
            let ghost n2 = *self;
            if off > self.size {
                self.size = off;
            }
            proof {
                lemma_same_pointers(
                    fs.cache.view(),
                    n2,
                    *self,
                    start,
                    ds,
                    nblks,
                    offset as int / 4096,
                    hi,
                    offset as int,
                    src@,
                    pos as int,
                );
                if ready {
                    lemma_keep_same_pointers(
                        old(fs).cache.view(),
                        *old(self),
                        fs.cache.view(),
                        n2,
                        *self,
                        offset as int,
                        pos as int,
                        offset as int / 4096,
                        hi,
                    );
                }
            }
        }
        Ok(done)
    }

    /// Freeing a block keeps the blocks before the data bitmap.
    proof fn lemma_dealloc_low(
        v: Map<u64, Seq<u8>>,
        v2: Map<u64, Seq<u8>>,
        b: u64,
        start: u64,
        ds: int,
        nblks: int,
        ok: bool,
    )
        requires
            start < ds,
            nblks <= (ds - start) * 32768,
            ok ==> ds <= b < ds + nblks && bit_flipped(v, v2, start, b - ds, false),
            !ok ==> extends(v, v2),
        ensures
            low_kept(v, v2, start),
    {
        if ok {
            lemma_bitmap_before_data(start, ds, nblks, b);
            lemma_flip_low(v, v2, start, b - ds, false);
        }
    }

    /// Freeing a block keeps the data region, and what a step before kept.
    proof fn lemma_dealloc_high(
        vl: Map<u64, Seq<u8>>,
        v: Map<u64, Seq<u8>>,
        v2: Map<u64, Seq<u8>>,
        b: u64,
        start: u64,
        ds: int,
        nblks: int,
    )
        requires
            start < ds,
            nblks <= (ds - start) * 32768,
            high_kept(vl, v, ds),
            ds <= b < ds + nblks,
            bit_flipped(v, v2, start, b - ds, false),
        ensures
            high_kept(vl, v2, ds),
    {
        lemma_bitmap_before_data(start, ds, nblks, b);
        assert forall|x: u64| #[trigger] vl.dom().contains(x) implies v2.dom().contains(x) && (x >= ds ==> v2[x]
            == vl[x]) by {
            assert(v.dom().contains(x));
        }
    }

    /// Frees the data block of file block `i` and clears the pointer to
    /// it; a missing pointer is `InvalidArgument`.
    fn dealloc_blk_at<D: BlockDevice, A: BlockBufferAllocator>(
        &mut self,
        fs: &mut EfsFileSystem<D, A>,
        i: u64,
        Ghost(lo): Ghost<int>,
        Ghost(hi): Ghost<int>,
    ) -> (r: Result<(), FsError>)
        requires
            old(fs).wf(),
            i * 4096 <= u64::MAX,
        ensures
            fs_same_layout(*old(fs), *final(fs)),
            same_meta(*old(self), *final(self)),
            final(self).size == old(self).size,
            final(self).indirect_blk_ptr == old(self).indirect_blk_ptr,
            final(self).double_indirect_blk_ptr == old(self).double_indirect_blk_ptr,
            r matches Err(e) ==> e.kind == FsErrorKind::InvalidArgument || e.kind
                == FsErrorKind::FileTooLarge || e.kind == FsErrorKind::NoSpaceLeft || e.kind == FsErrorKind::OutOfMemory || e.kind
                == FsErrorKind::IOError,
            tables_placed(
                old(fs).cache.view(),
                *old(self),
                old(fs).data_bitmap.start_blk_no,
                old(fs).data_start(),
                old(fs).superblock.data_blocks as int,
                lo,
                hi,
            ) && lo <= i < hi ==> tables_placed(
                final(fs).cache.view(),
                *final(self),
                old(fs).data_bitmap.start_blk_no,
                old(fs).data_start(),
                old(fs).superblock.data_blocks as int,
                lo,
                hi,
            ) && low_kept(old(fs).cache.view(), final(fs).cache.view(), old(fs).data_bitmap.start_blk_no),
            tables_ready(old(fs).cache.view(), *old(self), i as int) && i < max_file_blocks() ==> (r is Ok ==> ({
                let b = file_blk(old(fs).cache.view(), *old(self), i as int);
                &&& old(fs).data_start() <= b < old(fs).data_start() + old(fs).superblock.data_blocks
                &&& freed_from(
                    old(fs).cache.view(),
                    final(fs).cache.view(),
                    *old(self),
                    *final(self),
                    i as int,
                    b,
                    old(fs).data_bitmap.start_blk_no,
                    old(fs).data_start(),
                )
            })) && (r is Err ==> extends(old(fs).cache.view(), final(fs).cache.view()) && *final(self) == *old(
                self,
            )),
            dom_kept(old(fs).cache.view(), final(fs).cache.view()),
            tables_ready(old(fs).cache.view(), *old(self), i as int) && i < max_file_blocks() ==> ({
                let b = file_blk(old(fs).cache.view(), *old(self), i as int);
                &&& b == 0 ==> (r matches Err(e) && e.kind == FsErrorKind::InvalidArgument)
                &&& b != 0 && blk_marked(
                    old(fs).cache.view(),
                    old(fs).data_bitmap.start_blk_no,
                    old(fs).data_start(),
                    old(fs).superblock.data_blocks as int,
                    b,
                ) ==> r is Ok
            }),
    {
        let ghost v0 = fs.cache.view();
        let ghost n0 = *self;
        let ghost start = fs.data_bitmap.start_blk_no;
        let ghost ds = fs.data_start();
        let ghost nblks = fs.superblock.data_blocks as int;
        let ghost tp = tables_placed(v0, n0, start, ds, nblks, lo, hi) && lo <= i < hi;
        let offset = i * (BLOCK_SIZE as u64);
        let slot = match self.bmap_walk_mut(fs, offset, false) {
            Ok(slot) => slot,
            Err(e) => {
                proof {
                    if tp {
                        lemma_placed_frame(v0, fs.cache.view(), n0, *self, start, ds, nblks, lo, hi, None);
                    }
                }
                return Err(e);
            },
        };
        proof {
            if tp {
                assert(table_placed(v0, n0, ds, lo, i as int));
                assert((offset / 4096) as int == i);
            }
        }
        let b = match self.read_slot(fs, slot) {
            Ok(b) => b,
            Err(e) => {
                return Err(e);
            },
        };
        if b == INVALID_DATA_BLOCK_NO {
            return Err(FsError::from(FsErrorKind::InvalidArgument));
        }
        let ghost v1 = fs.cache.view();
        match fs.dealloc_data_block(b) {
            Ok(()) => {},
            Err(e) => {
                proof {
                    if tp {
                        lemma_placed_frame(v0, fs.cache.view(), n0, *self, start, ds, nblks, lo, hi, None);
                    }
                }
                return Err(e);
            },
        }
        let ghost v2 = fs.cache.view();
        let ghost v1x = v2;
        proof {
            if tp {
                lemma_bitmap_before_data(start, ds, nblks, b);
                let bb = bit_blk(start, b - ds);
                assert(bb >= start);
                if hi > 524 {
                    assert(table_placed(v0, n0, ds, lo, hi - 1));
                }
                lemma_placed_frame(v0, v2, n0, *self, start, ds, nblks, lo, hi, Some(bb));
            }
        }
        let r = self.write_slot(fs, slot, INVALID_DATA_BLOCK_NO);
        proof {
            if tables_ready(v0, n0, i as int) && i < max_file_blocks() {
                assert((offset / 4096) as int == i);
                assert(bit_flipped(v0, v1x, start, b - ds, false));
                if i < 12 {
                    assert(self.direct_blk_ptrs@ =~= n0.direct_blk_ptrs@.update(i as int, 0));
                }
                assert(freed_from(v0, fs.cache.view(), n0, *self, i as int, b, start, ds));
            }
            if tp {
                if i >= 12 {
                    let t = slot->Table_0;
                    if hi > 524 {
                        assert(table_placed(v0, n0, ds, lo, hi - 1));
                    }
                    if i >= 524 {
                        assert(second_table(v2, *self, i as int) == second_table(v0, n0, i as int));
                    }
                    assert(t >= ds);
                    assert(t != n0.double_indirect_blk_ptr || hi <= 524);
                    lemma_placed_frame(v2, fs.cache.view(), n0, *self, start, ds, nblks, lo, hi, Some(t));
                } else {
                    lemma_placed_frame(v2, fs.cache.view(), n0, *self, start, ds, nblks, lo, hi, None);
                }
            }
        }
        r
    }

    /// Frees the data blocks of file blocks `start_data_blk_idx` on, from
    /// the last one down, shrinking the recorded size by a block each; a
    /// missing pointer ends the walk. When the start lies before the doubly
    /// indirect region, its table is freed too, and before the indirect
    /// region the indirect table as well.
    pub fn dealloc_data_blks_from<D: BlockDevice, A: BlockBufferAllocator>(
        &mut self,
        fs: &mut EfsFileSystem<D, A>,
        start_data_blk_idx: u64,
    ) -> (r: Result<(), FsError>)
        requires
            old(fs).wf(),
        ensures
            fs_same_layout(*old(fs), *final(fs)),
            same_meta(*old(self), *final(self)),
            final(self).size <= old(self).size,
            final(self).indirect_blk_ptr == old(self).indirect_blk_ptr,
            final(self).double_indirect_blk_ptr == old(self).double_indirect_blk_ptr,
            free_ready(
                old(fs).cache.view(),
                *old(self),
                old(fs).data_bitmap.start_blk_no,
                old(fs).data_start(),
                old(fs).superblock.data_blocks as int,
                start_data_blk_idx as int,
            ) ==> r is Ok,
            old(self).size == 0 ==> r is Ok && *final(self) == *old(self) && final(fs).cache.view() == old(
                fs,
            ).cache.view(),
            r matches Err(e) ==> e.kind == FsErrorKind::InvalidArgument || e.kind
                == FsErrorKind::FileTooLarge || e.kind == FsErrorKind::NoSpaceLeft || e.kind == FsErrorKind::OutOfMemory || e.kind
                == FsErrorKind::IOError,
            tables_placed(
                old(fs).cache.view(),
                *old(self),
                old(fs).data_bitmap.start_blk_no,
                old(fs).data_start(),
                old(fs).superblock.data_blocks as int,
                start_data_blk_idx as int,
                blocks_of(old(self).size as int),
            ) ==> low_kept(old(fs).cache.view(), final(fs).cache.view(), old(fs).data_bitmap.start_blk_no),
            range_sound(
                old(fs).cache.view(),
                *old(self),
                old(fs).data_bitmap.start_blk_no,
                old(fs).data_start(),
                old(fs).superblock.data_blocks as int,
                0,
                blocks_of(old(self).size as int),
            ) && blocks_of(old(self).size as int) <= max_file_blocks() ==> (r is Ok ==> ({
                let kmax = if start_data_blk_idx < blocks_of(old(self).size as int) {
                    start_data_blk_idx as int
                } else {
                    blocks_of(old(self).size as int)
                };
                &&& kept_outside(
                    old(fs).cache.view(),
                    final(fs).cache.view(),
                    *old(self),
                    *final(self),
                    0,
                    0,
                    0,
                    kmax,
                )
                &&& ptrs_kept(old(fs).cache.view(), *old(self), final(fs).cache.view(), *final(self), 0, kmax)
                &&& range_high(final(fs).cache.view(), *final(self), old(fs).data_start(), 0, kmax)
                &&& tables_in_range(*old(self), start_data_blk_idx as int, blocks_of(old(self).size as int))
                    ==> others_untouched(
                    old(fs).cache.view(),
                    final(fs).cache.view(),
                    *old(self),
                    old(fs).data_bitmap.start_blk_no,
                    old(fs).data_start(),
                    old(fs).superblock.data_blocks as int,
                    kmax,
                    blocks_of(old(self).size as int),
                )
            })),
            range_sound(
                old(fs).cache.view(),
                *old(self),
                old(fs).data_bitmap.start_blk_no,
                old(fs).data_start(),
                old(fs).superblock.data_blocks as int,
                0,
                blocks_of(old(self).size as int),
            ) && blocks_of(old(self).size as int) <= max_file_blocks() ==> (r is Ok ==> ({
                let hi = blocks_of(old(self).size as int);
                let kmax = if start_data_blk_idx < hi {
                    start_data_blk_idx as int
                } else {
                    hi
                };
                let k = tail_start(old(fs).cache.view(), *old(self), kmax, hi);
                let start = old(fs).data_bitmap.start_blk_no;
                let ds = old(fs).data_start();
                let nblks = old(fs).superblock.data_blocks as int;
                &&& final(self).size == shrunk(old(self).size as int, hi - k)
                &&& tail_freed(old(fs).cache.view(), *old(self), final(fs).cache.view(), *final(self), start, ds, nblks, k, hi)
                &&& old(self).size > 0 && start_data_blk_idx <= 524 && old(self).double_indirect_blk_ptr != 0
                    ==> blk_free(final(fs).cache.view(), start, ds, nblks, old(self).double_indirect_blk_ptr)
                &&& old(self).size > 0 && start_data_blk_idx <= 12 && old(self).indirect_blk_ptr != 0 ==> blk_free(
                    final(fs).cache.view(),
                    start,
                    ds,
                    nblks,
                    old(self).indirect_blk_ptr,
                )
            })),
    {
        let ghost start = fs.data_bitmap.start_blk_no;
        let ghost ds = fs.data_start();
        let ghost nblks = fs.superblock.data_blocks as int;
        let ghost lo = start_data_blk_idx as int;
        let ghost hi = blocks_of(self.size as int);
        let ghost tp = tables_placed(fs.cache.view(), *self, start, ds, nblks, lo, hi);
        let ghost sp = range_sound(fs.cache.view(), *self, start, ds, nblks, 0, hi) && hi <= max_file_blocks();
        let ghost fr = free_ready(fs.cache.view(), *self, start, ds, nblks, lo);
        let ghost v00 = fs.cache.view();
        let ghost kmax = if lo < hi {
            lo
        } else {
            hi
        };
        proof {
            assert forall|q: int|
                0 <= q / 4096 < kmax && !(0 <= q < 0 + 0) && file_blk(fs.cache.view(), *self, q / 4096) != 0
                    && byte_known(fs.cache.view(), *self, q) implies #[trigger] byte_kept(
                fs.cache.view(),
                fs.cache.view(),
                *self,
                *self,
                q,
            ) by {}
            assert forall|x: u64|
                fs.cache.view().dom().contains(x) && blk_marked(fs.cache.view(), start, ds, nblks, x)
                    && !range_uses(fs.cache.view(), *self, kmax, hi, x) implies #[trigger] blk_kept(
                fs.cache.view(),
                fs.cache.view(),
                start,
                ds,
                nblks,
                x,
            ) by {}
        }
        if self.size == 0 {
            return Ok(());
        }
        let last = (self.size - 1) / (BLOCK_SIZE as u64);
        let mut i: u64 = last + 1;
        let ghost mut k: int = hi;
        while i > start_data_blk_idx
            invariant_except_break
                k == i,
            invariant
                kmax <= k <= hi,
                self.size == shrunk(old(self).size as int, hi - k),
                sp ==> tail_freed(old(fs).cache.view(), *old(self), fs.cache.view(), *self, start, ds, nblks, k, hi),
                fr == free_ready(old(fs).cache.view(), *old(self), start, ds, nblks, lo),
                fr ==> sp,
                v00 == old(fs).cache.view(),
                dom_kept(old(fs).cache.view(), fs.cache.view()),
                fs_same_layout(*old(fs), *fs),
                same_meta(*old(self), *self),
                self.size <= old(self).size,
                self.indirect_blk_ptr == old(self).indirect_blk_ptr,
                self.double_indirect_blk_ptr == old(self).double_indirect_blk_ptr,
                i <= last + 1,
                old(self).size >= 1,
                last == (old(self).size - 1) / 4096,
                hi == last + 1,
                lo == start_data_blk_idx,
                start == old(fs).data_bitmap.start_blk_no,
                ds == old(fs).data_start(),
                nblks == old(fs).superblock.data_blocks,
                tp == tables_placed(old(fs).cache.view(), *old(self), start, ds, nblks, lo, hi),
                tp ==> tables_placed(fs.cache.view(), *self, start, ds, nblks, lo, hi) && low_kept(
                    old(fs).cache.view(),
                    fs.cache.view(),
                    start,
                ),
                sp == (range_sound(old(fs).cache.view(), *old(self), start, ds, nblks, 0, hi) && hi <= max_file_blocks()),
                kmax == (if lo < hi {
                    lo
                } else {
                    hi
                }),
                kmax <= i,
                sp ==> range_sound(fs.cache.view(), *self, start, ds, nblks, 0, i as int) && kept_outside(
                    old(fs).cache.view(),
                    fs.cache.view(),
                    *old(self),
                    *self,
                    0,
                    0,
                    0,
                    kmax,
                ) && ptrs_kept(old(fs).cache.view(), *old(self), fs.cache.view(), *self, 0, kmax),
                sp ==> others_untouched(old(fs).cache.view(), fs.cache.view(), *old(self), start, ds, nblks, kmax, hi),
                sp ==> forall|j: int|
                    0 <= j < i ==> #[trigger] file_blk(fs.cache.view(), *self, j) == file_blk(
                        old(fs).cache.view(),
                        *old(self),
                        j,
                    ),
                sp ==> forall|j: int|
                    0 <= j < i && j >= 524 ==> #[trigger] second_table(fs.cache.view(), *self, j) == second_table(
                        old(fs).cache.view(),
                        *old(self),
                        j,
                    ),
            ensures
                (k == i + 1 && (sp ==> file_blk(old(fs).cache.view(), *old(self), i as int) == 0)) || (k == i && i
                    <= start_data_blk_idx),
            decreases i,
        {
            i = i - 1;
            proof {
                let sz = old(self).size as int;
                assert(i * 4096 <= sz - 1) by (nonlinear_arith)
                    requires
                        i <= (sz - 1) / 4096,
                        sz >= 1,
                ;
            }
            let ghost va = fs.cache.view();
            let ghost na = *self;
            proof {
                fs.cache.lemma_view_block_sized();
                if sp {
                    assert(walk_marked(va, na, start, ds, nblks, i as int));
                }
            }
            let result = self.dealloc_blk_at(fs, i, Ghost(lo), Ghost(hi));
            proof {
                if fr {
                    assert(result is Ok || (result matches Err(e) && e.kind == FsErrorKind::InvalidArgument));
                }
                assert(dom_kept(old(fs).cache.view(), fs.cache.view())) by {
                    assert forall|x: u64| #[trigger] old(fs).cache.view().dom().contains(x) implies fs.cache.view().dom().contains(x) by {
                        assert(va.dom().contains(x));
                    }
                }
                if tp {
                    lemma_low_kept_trans(old(fs).cache.view(), va, fs.cache.view(), start);
                }
                if sp {
                    if result is Ok {
                        lemma_sound_free(va, fs.cache.view(), na, *self, start, ds, nblks, i as int, file_blk(va, na, i as int));
                        lemma_free_untouched(
                            old(fs).cache.view(),
                            *old(self),
                            va,
                            na,
                            fs.cache.view(),
                            start,
                            ds,
                            nblks,
                            kmax,
                            hi,
                            i as int,
                            file_blk(va, na, i as int),
                        );
                        lemma_kept_shrink(
                            old(fs).cache.view(),
                            *old(self),
                            va,
                            na,
                            fs.cache.view(),
                            *self,
                            start,
                            ds,
                            nblks,
                            kmax,
                            i as int,
                        );
                    } else {
                        lemma_untouched_extends(
                            old(fs).cache.view(),
                            va,
                            fs.cache.view(),
                            *old(self),
                            start,
                            ds,
                            nblks,
                            kmax,
                            hi,
                        );
                        lemma_sound_frame(va, fs.cache.view(), na, start, ds, nblks, 0, i + 1, None);
                        lemma_sound_sub(fs.cache.view(), na, start, ds, nblks, 0, i + 1, 0, i as int);
                        lemma_kept_shrink(
                            old(fs).cache.view(),
                            *old(self),
                            va,
                            na,
                            fs.cache.view(),
                            *self,
                            start,
                            ds,
                            nblks,
                            kmax,
                            i as int,
                        );
                    }
                }
            }
            proof {
                if sp {
                    if result is Ok {
                        lemma_tail_step(
                            old(fs).cache.view(),
                            *old(self),
                            va,
                            na,
                            fs.cache.view(),
                            *self,
                            start,
                            ds,
                            nblks,
                            hi,
                            i as int,
                            file_blk(va, na, i as int),
                        );
                    } else {
                        lemma_tail_extends(old(fs).cache.view(), *old(self), va, fs.cache.view(), *self, start, ds, nblks, k, hi);
                    }
                }
            }
            match result {
                Ok(()) => {},
                Err(e) => {
                    if e.kind == FsErrorKind::InvalidArgument {
                        proof {
                            k = i + 1;
                        }
                        break;
                    }
                    return Err(e);
                },
            }
            let ghost nb = *self;
            self.size = self.size.saturating_sub(BLOCK_SIZE as u64);
            proof {
                lemma_shrunk_step(old(self).size as int, hi - k);
                k = i as int;
                if sp {
                    assert(tail_freed(old(fs).cache.view(), *old(self), fs.cache.view(), *self, start, ds, nblks, k, hi)) by {
                        assert(self.direct_blk_ptrs == nb.direct_blk_ptrs);
                    }
                }
                if tp {
                    lemma_placed_frame(fs.cache.view(), fs.cache.view(), nb, *self, start, ds, nblks, lo, hi, None);
                }
                if sp {
                    lemma_same_pointers(
                        fs.cache.view(),
                        nb,
                        *self,
                        start,
                        ds,
                        nblks,
                        0,
                        i as int,
                        0,
                        Seq::empty(),
                        0,
                    );
                    lemma_keep_same_pointers(old(fs).cache.view(), *old(self), fs.cache.view(), nb, *self, 0, 0, 0, kmax);
                }
            }
        }
        let ghost vl = fs.cache.view();
        proof {
            if sp {
                lemma_sound_sub(vl, *self, start, ds, nblks, 0, i as int, 0, kmax);
                lemma_tail_start(old(fs).cache.view(), *old(self), kmax, k, hi);
            }
        }
        if start_data_blk_idx <= (NUM_DIRECT_DATA_BLKS + BLK_NUMS_PER_BLOCK) as u64 {
            if self.double_indirect_blk_ptr != INVALID_DATA_BLOCK_NO {
                let ghost vb = fs.cache.view();
                let rd = fs.dealloc_data_block(self.double_indirect_blk_ptr);
                proof {
                    if tp {
                        Self::lemma_dealloc_low(vb, fs.cache.view(), self.double_indirect_blk_ptr, start, ds, nblks, rd is Ok);
                        lemma_low_kept_trans(old(fs).cache.view(), vb, fs.cache.view(), start);
                    }
                    if sp && rd is Ok {
                        lemma_tail_table_free(
                            old(fs).cache.view(),
                            *old(self),
                            vb,
                            *self,
                            fs.cache.view(),
                            start,
                            ds,
                            nblks,
                            k,
                            hi,
                            self.double_indirect_blk_ptr,
                            self.double_indirect_blk_ptr,
                        );
                        Self::lemma_dealloc_high(vl, vb, fs.cache.view(), self.double_indirect_blk_ptr, start, ds, nblks);
                        if tables_in_range(*old(self), lo, hi) {
                            assert(walk_marked(old(fs).cache.view(), *old(self), start, ds, nblks, 524));
                            lemma_table_free_untouched(
                                old(fs).cache.view(),
                                *old(self),
                                vb,
                                fs.cache.view(),
                                start,
                                ds,
                                nblks,
                                kmax,
                                hi,
                                524,
                                self.double_indirect_blk_ptr,
                            );
                        }
                    }
                }
                match rd {
                    Ok(()) => {},
                    Err(e) => {
                        return Err(e);
                    },
                }
            }
            if start_data_blk_idx <= NUM_DIRECT_DATA_BLKS as u64 && self.indirect_blk_ptr
                != INVALID_DATA_BLOCK_NO {
                let ghost vb = fs.cache.view();
                let ri = fs.dealloc_data_block(self.indirect_blk_ptr);
                proof {
                    if tp {
                        Self::lemma_dealloc_low(vb, fs.cache.view(), self.indirect_blk_ptr, start, ds, nblks, ri is Ok);
                        lemma_low_kept_trans(old(fs).cache.view(), vb, fs.cache.view(), start);
                    }
                    if sp && ri is Ok {
                        lemma_tail_table_free(
                            old(fs).cache.view(),
                            *old(self),
                            vb,
                            *self,
                            fs.cache.view(),
                            start,
                            ds,
                            nblks,
                            k,
                            hi,
                            self.indirect_blk_ptr,
                            self.double_indirect_blk_ptr,
                        );
                        Self::lemma_dealloc_high(vl, vb, fs.cache.view(), self.indirect_blk_ptr, start, ds, nblks);
                        if tables_in_range(*old(self), lo, hi) {
                            assert(walk_marked(old(fs).cache.view(), *old(self), start, ds, nblks, 12));
                            lemma_table_free_untouched(
                                old(fs).cache.view(),
                                *old(self),
                                vb,
                                fs.cache.view(),
                                start,
                                ds,
                                nblks,
                                kmax,
                                hi,
                                12,
                                self.indirect_blk_ptr,
                            );
                        }
                    }
                }
                match ri {
                    Ok(()) => {},
                    Err(e) => {
                        return Err(e);
                    },
                }
            }
        }
        proof {
            if sp {
                if !(start_data_blk_idx <= (NUM_DIRECT_DATA_BLKS + BLK_NUMS_PER_BLOCK) as u64) {
                    assert(fs.cache.view() == vl);
                }
                assert(high_kept(vl, fs.cache.view(), ds));
                lemma_sound_high(vl, *self, start, ds, nblks, 0, kmax);
                lemma_kept_high_frame(old(fs).cache.view(), *old(self), vl, *self, fs.cache.view(), ds, 0, 0, 0, kmax);
            }
        }
        Ok(())
    }

    /// Shrinks the file to `new_size` bytes, freeing the blocks past it.
    pub fn truncate<D: BlockDevice, A: BlockBufferAllocator>(
        &mut self,
        fs: &mut EfsFileSystem<D, A>,
        new_size: u64,
    ) -> (r: Result<(), FsError>)
        requires
            old(fs).wf(),
            old(self).size > new_size,
        ensures
            fs_same_layout(*old(fs), *final(fs)),
            same_meta(*old(self), *final(self)),
            r is Ok ==> final(self).size == new_size,
            tables_placed(
                old(fs).cache.view(),
                *old(self),
                old(fs).data_bitmap.start_blk_no,
                old(fs).data_start(),
                old(fs).superblock.data_blocks as int,
                blocks_of(new_size as int),
                blocks_of(old(self).size as int),
            ) ==> low_kept(old(fs).cache.view(), final(fs).cache.view(), old(fs).data_bitmap.start_blk_no),
            r matches Err(e) ==> e.kind == FsErrorKind::InvalidArgument || e.kind
                == FsErrorKind::FileTooLarge || e.kind == FsErrorKind::NoSpaceLeft || e.kind == FsErrorKind::OutOfMemory || e.kind
                == FsErrorKind::IOError,
            range_sound(
                old(fs).cache.view(),
                *old(self),
                old(fs).data_bitmap.start_blk_no,
                old(fs).data_start(),
                old(fs).superblock.data_blocks as int,
                0,
                blocks_of(old(self).size as int),
            ) && blocks_of(old(self).size as int) <= max_file_blocks() ==> (r is Ok ==> kept_outside(
                old(fs).cache.view(),
                final(fs).cache.view(),
                *old(self),
                *final(self),
                0,
                0,
                0,
                blocks_of(new_size as int),
            ) && ptrs_kept(
                old(fs).cache.view(),
                *old(self),
                final(fs).cache.view(),
                *final(self),
                0,
                blocks_of(new_size as int),
            ) && range_high(final(fs).cache.view(), *final(self), old(fs).data_start(), 0, blocks_of(new_size as int))
                && (tables_in_range(*old(self), blocks_of(new_size as int), blocks_of(old(self).size as int))
                ==> others_untouched(
                old(fs).cache.view(),
                final(fs).cache.view(),
                *old(self),
                old(fs).data_bitmap.start_blk_no,
                old(fs).data_start(),
                old(fs).superblock.data_blocks as int,
                blocks_of(new_size as int),
                blocks_of(old(self).size as int),
            ))),
            range_sound(
                old(fs).cache.view(),
                *old(self),
                old(fs).data_bitmap.start_blk_no,
                old(fs).data_start(),
                old(fs).superblock.data_blocks as int,
                0,
                blocks_of(old(self).size as int),
            ) && blocks_of(old(self).size as int) <= max_file_blocks() ==> (r is Ok ==> trunc_freed(
                old(fs).cache.view(),
                *old(self),
                final(fs).cache.view(),
                *final(self),
                old(fs).data_bitmap.start_blk_no,
                old(fs).data_start(),
                old(fs).superblock.data_blocks as int,
                new_size as int,
            )),
    {
        let blk_idx = new_size / (BLOCK_SIZE as u64) + if new_size % (BLOCK_SIZE as u64) == 0 {
            0
        } else {
            1
        };
        proof {
            assert(blk_idx == blocks_of(new_size as int)) by (nonlinear_arith)
                requires
                    blk_idx == new_size / 4096 + if new_size % 4096 == 0 {
                        0int
                    } else {
                        1int
                    },
                    blocks_of(new_size as int) == (if new_size <= 0 {
                        0
                    } else {
                        (new_size - 1) / 4096 + 1
                    }),
                    new_size >= 0,
            ;
        }
        proof {
            let sz = old(self).size as int;
            assert(blocks_of(new_size as int) <= blocks_of(sz)) by (nonlinear_arith)
                requires
                    new_size < sz,
                    blocks_of(new_size as int) == (if new_size <= 0 {
                        0
                    } else {
                        (new_size - 1) / 4096 + 1
                    }),
                    blocks_of(sz) == (if sz <= 0 {
                        0
                    } else {
                        (sz - 1) / 4096 + 1
                    }),
            ;
        }
        match self.dealloc_data_blks_from(fs, blk_idx) {
            Ok(()) => {
                let ghost nd = *self;
                self.size = new_size;
                proof {
                    let k = blocks_of(new_size as int);
                    if range_sound(
                        old(fs).cache.view(),
                        *old(self),
                        old(fs).data_bitmap.start_blk_no,
                        old(fs).data_start(),
                        old(fs).superblock.data_blocks as int,
                        0,
                        blocks_of(old(self).size as int),
                    ) && blocks_of(old(self).size as int) <= max_file_blocks() {
                        lemma_keep_same_pointers(old(fs).cache.view(), *old(self), fs.cache.view(), nd, *self, 0, 0, 0, k);
                        lemma_high_same_pointers(fs.cache.view(), nd, *self, fs.data_start(), 0, k);
                        let hi = blocks_of(old(self).size as int);
                        let kk = tail_start(old(fs).cache.view(), *old(self), k, hi);
                        assert(tail_freed(
                            old(fs).cache.view(),
                            *old(self),
                            fs.cache.view(),
                            *self,
                            fs.data_bitmap.start_blk_no,
                            fs.data_start(),
                            fs.superblock.data_blocks as int,
                            kk,
                            hi,
                        )) by {
                            assert(self.direct_blk_ptrs == nd.direct_blk_ptrs);
                        }
                        if forall|j: int| k <= j < hi ==> #[trigger] file_blk(old(fs).cache.view(), *old(self), j) != 0 {
                            lemma_tail_start(old(fs).cache.view(), *old(self), k, k, hi);
                        }
                    }
                }
                Ok(())
            },
            Err(e) => Err(e),
        }
    }
}

} // verus!
