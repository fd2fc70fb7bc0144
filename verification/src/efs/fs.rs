//! A mounted file system: its cache, its superblock and its two bitmaps.

use vstd::prelude::*;
use crate::errors::{FsError, FsErrorKind, opt_str_view};
use crate::efs::consts::{INVALID_INODE_NO, ROOT_INODE_NO, NINODES_PER_BLOCK};
use crate::efs::dev::BlockDevice;
use crate::efs::buffer::BlockBufferAllocator;
use crate::efs::config::FsConfig;
use crate::efs::cache::{BlockCacheManager, extends};
use crate::efs::bitmap::{BitmapBlocks, BLOCK_BITS, bit_set, bit_blk, bit_flipped, covers, count_set, words_of, out_of_bound_msg};
use crate::efs::superblock::{RawSuperBlock, sb_problem};
use crate::efs::consts::RESERVED_INODE_NUM_END;
use crate::efs::node::{INode, lemma_stored_extends};
use crate::efs::inode::{FileType, spec_file_type};
use crate::efs::dir::{root_fits, entry_placed, entry_at, lemma_entry_placed_extends};
use crate::efs::dirent::dirent_name;

verus! {

/// A file system over device `D` with buffers from allocator `A`.
pub struct EfsFileSystem<D, A> {
    pub cache: BlockCacheManager<D, A>,
    pub superblock: RawSuperBlock,
    pub inode_bitmap: BitmapBlocks,
    pub data_bitmap: BitmapBlocks,
}

/// The message of a superblock whose regions do not fit the numbers that
/// hold them.
pub open spec fn bad_layout_msg() -> Seq<char> {
    "efs superblock: bad layout"@
}

/// The message of a file system whose inode 0 is not marked taken.
pub open spec fn unreserved_msg() -> Seq<char> {
    "efs: the inode index 0 should be reserved for representing no inode"@
}

/// The message of a file system whose root inode is not marked taken.
pub open spec fn no_root_msg() -> Seq<char> {
    "efs: the root is not present"@
}

impl<D: BlockDevice, A: BlockBufferAllocator> EfsFileSystem<D, A> {
    /// The cache is consistent and never evicts, the superblock's regions
    /// fit, and the bitmaps sit where the superblock puts them.
    pub open spec fn wf(&self) -> bool {
        &&& self.cache.wf()
        &&& self.cache.unbounded()
        &&& self.superblock.layout_ok()
        &&& self.inode_bitmap.wf()
        &&& self.inode_bitmap.start_blk_no == 2
        &&& self.inode_bitmap.bits_len == self.superblock.inode_blocks * NINODES_PER_BLOCK
        &&& self.data_bitmap.wf()
        &&& self.data_bitmap.start_blk_no == 2 + self.superblock.inode_bitmap_blocks
            + self.superblock.inode_blocks
        &&& self.data_bitmap.bits_len == self.superblock.data_blocks
    }

    /// The first data block.
    pub open spec fn data_start(&self) -> int {
        2 + self.superblock.inode_bitmap_blocks + self.superblock.inode_blocks
            + self.superblock.data_bitmap_blocks
    }

    /// Opens the file system on `dev` without checking it: reads the
    /// superblock and places the bitmaps. A superblock whose regions do not
    /// fit the numbers that hold them is refused as `FileSystemCorruption`.
    pub fn new_self_ref_without_verify(dev: D, config: FsConfig<A>) -> (r: Result<Self, FsError>)
        ensures
            r matches Ok(fs) ==> fs.wf() && fs.cache.device() == dev,
            r matches Err(e) ==> e.kind == FsErrorKind::OutOfMemory || e.kind == FsErrorKind::IOError
                || (e.kind == FsErrorKind::FileSystemCorruption && opt_str_view(e.msg) == Some(
                bad_layout_msg(),
            )),
    {
        let mut cache = BlockCacheManager::new(dev, config.block_buffer_allocator);
        let superblock = match RawSuperBlock::read(&mut cache) {
            Ok(sb) => sb,
            Err(e) => {
                return Err(e);
            },
        };
        if !(superblock.inode_bitmap_blocks <= u64::MAX - 2 && superblock.inode_blocks <= u64::MAX - 2
            - superblock.inode_bitmap_blocks && superblock.data_bitmap_blocks <= u64::MAX - 2
            - superblock.inode_bitmap_blocks - superblock.inode_blocks && superblock.data_blocks
            <= u64::MAX - 2 - superblock.inode_bitmap_blocks - superblock.inode_blocks
            - superblock.data_bitmap_blocks && superblock.inode_blocks <= (usize::MAX as u64 - 32768)
            / 31 && superblock.data_blocks <= usize::MAX as u64 - 32768) {
            return Err(FsError::with_fmt_args(FsErrorKind::FileSystemCorruption, "efs superblock: bad layout"));
        }
        proof {
            assert(superblock.inode_blocks * 31 <= usize::MAX - 32768) by (nonlinear_arith)
                requires
                    superblock.inode_blocks <= (usize::MAX - 32768) / 31,
            ;
        }
        let inode_bitmap = BitmapBlocks::new(
            superblock.inode_bitmap_start_bno(),
            superblock.inode_counts(),
        );
        proof {
            assert(2 + superblock.inode_bitmap_blocks + superblock.inode_blocks + (superblock.data_blocks + BLOCK_BITS - 1) / (
            BLOCK_BITS as int) <= u64::MAX) by (nonlinear_arith)
                requires
                    2 + superblock.inode_bitmap_blocks + superblock.inode_blocks
                        + superblock.data_bitmap_blocks + superblock.data_blocks <= u64::MAX,
            ;
        }
        let data_bitmap = BitmapBlocks::new(
            superblock.data_bitmap_start_bno(),
            superblock.data_blocks as usize,
        );
        Ok(EfsFileSystem { cache, superblock, inode_bitmap, data_bitmap })
    }

    /// The superblock.
    pub fn superblock(&self) -> (r: &RawSuperBlock)
        ensures
            *r == self.superblock,
    {
        &self.superblock
    }

    /// The cache under the file system.
    pub fn cache(&self) -> (r: &BlockCacheManager<D, A>)
        ensures
            *r == self.cache,
    {
        &self.cache
    }

    /// The device under the file system.
    pub fn dev(&self) -> (r: &D)
        ensures
            *r == self.cache.device(),
    {
        self.cache.dev()
    }

    /// Allocates the lowest free data block and gives its number; `None`
    /// free is `NoSpaceLeft`.
    pub fn alloc_data_block(&mut self) -> (r: Result<u64, FsError>)
        requires
            old(self).wf(),
        ensures
            final(self).wf(),
            final(self).superblock == old(self).superblock,
            final(self).inode_bitmap == old(self).inode_bitmap,
            final(self).data_bitmap == old(self).data_bitmap,
            final(self).cache.device() == old(self).cache.device(),
            r matches Ok(b) ==> old(self).data_start() <= b < old(self).data_start()
                + old(self).superblock.data_blocks && bit_flipped(
                old(self).cache.view(),
                final(self).cache.view(),
                old(self).data_bitmap.start_blk_no,
                b - old(self).data_start(),
                true,
            ) && (old(self).cache.view().dom().contains(
                bit_blk(old(self).data_bitmap.start_blk_no, b - old(self).data_start()),
            ) ==> !bit_set(
                old(self).cache.view(),
                old(self).data_bitmap.start_blk_no,
                b - old(self).data_start(),
            )),
            r matches Err(e) ==> extends(old(self).cache.view(), final(self).cache.view()) && (e.kind
                == FsErrorKind::NoSpaceLeft || e.kind == FsErrorKind::OutOfMemory || e.kind
                == FsErrorKind::IOError),
            r matches Err(e) && e.kind == FsErrorKind::NoSpaceLeft ==> forall|j: int|
                0 <= j < old(self).superblock.data_blocks ==> #[trigger] bit_set(
                    final(self).cache.view(),
                    old(self).data_bitmap.start_blk_no,
                    j,
                ),
    {
        match self.data_bitmap.alloc_bit(&mut self.cache) {
            Ok(Some(i)) => Ok(i as u64 + self.superblock.data_start_bno()),
            Ok(None) => Err(FsError::from(FsErrorKind::NoSpaceLeft)),
            Err(e) => Err(e),
        }
    }

    /// The index within the data bitmap of block `bno`; a block before the
    /// data region maps past the end of the bitmap.
    fn data_index(&self, bno: u64) -> (r: usize)
        requires
            self.wf(),
        ensures
            bno >= self.data_start() && bno - self.data_start() < self.data_bitmap.bits_len ==> r
                == bno - self.data_start(),
            !(bno >= self.data_start() && bno - self.data_start() < self.data_bitmap.bits_len) ==> r
                == self.data_bitmap.bits_len,
    {
        let start = self.superblock.data_start_bno();
        if bno >= start && bno - start < self.data_bitmap.bits_len as u64 {
            (bno - start) as usize
        } else {
            self.data_bitmap.bits_len
        }
    }

    /// Frees data block `bno`. A number outside the data region is refused
    /// with `InvalidArgument`.
    pub fn dealloc_data_block(&mut self, bno: u64) -> (r: Result<(), FsError>)
        requires
            old(self).wf(),
        ensures
            final(self).wf(),
            final(self).superblock == old(self).superblock,
            final(self).inode_bitmap == old(self).inode_bitmap,
            final(self).data_bitmap == old(self).data_bitmap,
            final(self).cache.device() == old(self).cache.device(),
            !(old(self).data_start() <= bno < old(self).data_start() + old(self).superblock.data_blocks)
                ==> (r matches Err(e) && e.kind == FsErrorKind::InvalidArgument && opt_str_view(e.msg)
                == Some(out_of_bound_msg())) && final(self).cache.view() == old(self).cache.view(),
            r is Ok ==> bit_flipped(
                old(self).cache.view(),
                final(self).cache.view(),
                old(self).data_bitmap.start_blk_no,
                bno - old(self).data_start(),
                false,
            ),
            r matches Err(e) ==> extends(old(self).cache.view(), final(self).cache.view()) && (e.kind
                == FsErrorKind::InvalidArgument || e.kind == FsErrorKind::OutOfMemory || e.kind
                == FsErrorKind::IOError),
            old(self).data_start() <= bno < old(self).data_start() + old(self).superblock.data_blocks && old(
                self,
            ).cache.view().dom().contains(bit_blk(old(self).data_bitmap.start_blk_no, bno - old(self).data_start()))
                ==> r is Ok,
    {
        let idx = self.data_index(bno);
        self.data_bitmap.clear_bit(&mut self.cache, idx)
    }

    /// Whether data block `bno` is allocated. A number outside the data
    /// region is refused with `InvalidArgument`.
    pub fn is_data_block_used(&mut self, bno: u64) -> (r: Result<bool, FsError>)
        requires
            old(self).wf(),
        ensures
            final(self).wf(),
            final(self).superblock == old(self).superblock,
            final(self).inode_bitmap == old(self).inode_bitmap,
            final(self).data_bitmap == old(self).data_bitmap,
            final(self).cache.device() == old(self).cache.device(),
            extends(old(self).cache.view(), final(self).cache.view()),
            !(old(self).data_start() <= bno < old(self).data_start() + old(self).superblock.data_blocks)
                ==> (r matches Err(e) && e.kind == FsErrorKind::InvalidArgument && opt_str_view(e.msg)
                == Some(out_of_bound_msg())),
            r matches Ok(b) ==> b == bit_set(
                final(self).cache.view(),
                old(self).data_bitmap.start_blk_no,
                bno - old(self).data_start(),
            ),
    {
        let idx = self.data_index(bno);
        self.data_bitmap.get_bit(&mut self.cache, idx)
    }

    /// The number of set bits in the data bitmap's words.
    pub fn count_allocated_data_blocks(&mut self) -> (r: Result<usize, FsError>)
        requires
            old(self).wf(),
        ensures
            final(self).wf(),
            final(self).superblock == old(self).superblock,
            final(self).inode_bitmap == old(self).inode_bitmap,
            final(self).data_bitmap == old(self).data_bitmap,
            final(self).cache.device() == old(self).cache.device(),
            extends(old(self).cache.view(), final(self).cache.view()),
            r matches Ok(n) ==> n == count_set(
                final(self).cache.view(),
                old(self).data_bitmap.start_blk_no,
                64 * words_of(old(self).data_bitmap.bits_len as int),
            ),
            r matches Err(e) ==> e.kind == FsErrorKind::OutOfMemory || e.kind == FsErrorKind::IOError,
            covers(
                old(self).cache.view(),
                old(self).data_bitmap.start_blk_no,
                64 * words_of(old(self).data_bitmap.bits_len as int),
            ) ==> r is Ok,
    {
        self.data_bitmap.count_allocated_bits(&mut self.cache)
    }

    /// Allocates the lowest free inode and gives its number; none free is
    /// `NoSpaceLeft`.
    pub fn alloc_inode(&mut self) -> (r: Result<u64, FsError>)
        requires
            old(self).wf(),
        ensures
            final(self).wf(),
            final(self).superblock == old(self).superblock,
            final(self).inode_bitmap == old(self).inode_bitmap,
            final(self).data_bitmap == old(self).data_bitmap,
            final(self).cache.device() == old(self).cache.device(),
            r matches Ok(ino) ==> ino < old(self).inode_bitmap.bits_len && bit_flipped(
                old(self).cache.view(),
                final(self).cache.view(),
                2,
                ino as int,
                true,
            ) && (forall|j: int| 0 <= j < ino ==> #[trigger] bit_set(final(self).cache.view(), 2, j))
                && (old(self).cache.view().dom().contains(bit_blk(2, ino as int)) ==> !bit_set(
                old(self).cache.view(),
                2,
                ino as int,
            )),
            r matches Err(e) ==> extends(old(self).cache.view(), final(self).cache.view()) && (e.kind
                == FsErrorKind::NoSpaceLeft || e.kind == FsErrorKind::OutOfMemory || e.kind
                == FsErrorKind::IOError),
            r matches Err(e) && e.kind == FsErrorKind::NoSpaceLeft ==> forall|j: int|
                0 <= j < old(self).inode_bitmap.bits_len ==> #[trigger] bit_set(final(self).cache.view(), 2, j),
            covers(old(self).cache.view(), 2, old(self).inode_bitmap.bits_len as int) ==> (r is Ok || (r matches Err(
                e,
            ) && e.kind == FsErrorKind::NoSpaceLeft)),
    {
        match self.inode_bitmap.alloc_bit(&mut self.cache) {
            Ok(Some(i)) => Ok(i as u64),
            Ok(None) => Err(FsError::from(FsErrorKind::NoSpaceLeft)),
            Err(e) => Err(e),
        }
    }

    fn inode_index(&self, ino: u64) -> (r: usize)
        requires
            self.wf(),
        ensures
            ino < self.inode_bitmap.bits_len ==> r == ino,
            ino >= self.inode_bitmap.bits_len ==> r == self.inode_bitmap.bits_len,
    {
        if ino < self.inode_bitmap.bits_len as u64 {
            ino as usize
        } else {
            self.inode_bitmap.bits_len
        }
    }

    /// Marks inode `inode_no` as allocated. A number past the inodes is
    /// refused with `InvalidArgument`.
    pub fn set_inode_bit(&mut self, inode_no: u64) -> (r: Result<(), FsError>)
        requires
            old(self).wf(),
        ensures
            final(self).wf(),
            final(self).superblock == old(self).superblock,
            final(self).inode_bitmap == old(self).inode_bitmap,
            final(self).data_bitmap == old(self).data_bitmap,
            final(self).cache.device() == old(self).cache.device(),
            inode_no >= old(self).inode_bitmap.bits_len ==> (r matches Err(e) && e.kind
                == FsErrorKind::InvalidArgument && opt_str_view(e.msg) == Some(out_of_bound_msg()))
                && final(self).cache.view() == old(self).cache.view(),
            r is Ok ==> bit_flipped(old(self).cache.view(), final(self).cache.view(), 2, inode_no as int, true),
            r matches Err(e) ==> extends(old(self).cache.view(), final(self).cache.view()),
    {
        let idx = self.inode_index(inode_no);
        self.inode_bitmap.set_bit(&mut self.cache, idx)
    }

    /// Marks inode `inode_no` as free. A number past the inodes is refused
    /// with `InvalidArgument`.
    pub fn dealloc_inode(&mut self, inode_no: u64) -> (r: Result<(), FsError>)
        requires
            old(self).wf(),
        ensures
            final(self).wf(),
            final(self).superblock == old(self).superblock,
            final(self).inode_bitmap == old(self).inode_bitmap,
            final(self).data_bitmap == old(self).data_bitmap,
            final(self).cache.device() == old(self).cache.device(),
            inode_no >= old(self).inode_bitmap.bits_len ==> (r matches Err(e) && e.kind
                == FsErrorKind::InvalidArgument && opt_str_view(e.msg) == Some(out_of_bound_msg()))
                && final(self).cache.view() == old(self).cache.view(),
            r is Ok ==> bit_flipped(old(self).cache.view(), final(self).cache.view(), 2, inode_no as int, false),
            r matches Err(e) ==> extends(old(self).cache.view(), final(self).cache.view()),
    {
        let idx = self.inode_index(inode_no);
        self.inode_bitmap.clear_bit(&mut self.cache, idx)
    }

    /// Whether inode `inode_no` is allocated. A number past the inodes is
    /// refused with `InvalidArgument`.
    pub fn is_inode_used(&mut self, inode_no: u64) -> (r: Result<bool, FsError>)
        requires
            old(self).wf(),
        ensures
            final(self).wf(),
            final(self).superblock == old(self).superblock,
            final(self).inode_bitmap == old(self).inode_bitmap,
            final(self).data_bitmap == old(self).data_bitmap,
            final(self).cache.device() == old(self).cache.device(),
            extends(old(self).cache.view(), final(self).cache.view()),
            inode_no >= old(self).inode_bitmap.bits_len ==> (r matches Err(e) && e.kind
                == FsErrorKind::InvalidArgument && opt_str_view(e.msg) == Some(out_of_bound_msg())),
            r matches Ok(b) ==> b == bit_set(final(self).cache.view(), 2, inode_no as int)
                && final(self).cache.view().dom().contains(bit_blk(2, inode_no as int)),
            r matches Err(e) ==> e.kind == FsErrorKind::InvalidArgument || e.kind
                == FsErrorKind::OutOfMemory || e.kind == FsErrorKind::IOError,
            inode_no < old(self).inode_bitmap.bits_len && old(self).cache.view().dom().contains(
                bit_blk(2, inode_no as int),
            ) ==> r is Ok,
    {
        let idx = self.inode_index(inode_no);
        self.inode_bitmap.get_bit(&mut self.cache, idx)
    }

    /// The number of set bits in the inode bitmap's words.
    pub fn count_allocated_inodes(&mut self) -> (r: Result<usize, FsError>)
        requires
            old(self).wf(),
        ensures
            final(self).wf(),
            final(self).superblock == old(self).superblock,
            final(self).inode_bitmap == old(self).inode_bitmap,
            final(self).data_bitmap == old(self).data_bitmap,
            final(self).cache.device() == old(self).cache.device(),
            extends(old(self).cache.view(), final(self).cache.view()),
            r matches Ok(n) ==> n == count_set(
                final(self).cache.view(),
                2,
                64 * words_of(old(self).inode_bitmap.bits_len as int),
            ),
            r matches Err(e) ==> e.kind == FsErrorKind::OutOfMemory || e.kind == FsErrorKind::IOError,
            covers(old(self).cache.view(), 2, 64 * words_of(old(self).inode_bitmap.bits_len as int)) ==> r is Ok,
    {
        self.inode_bitmap.count_allocated_bits(&mut self.cache)
    }

    /// Checks that inode 0 is reserved, that the root inode is allocated,
    /// and the superblock; the first failure is an error.
    pub fn verify(&mut self) -> (r: Result<(), FsError>)
        requires
            old(self).wf(),
        ensures
            final(self).wf(),
            final(self).superblock == old(self).superblock,
            final(self).inode_bitmap == old(self).inode_bitmap,
            final(self).data_bitmap == old(self).data_bitmap,
            final(self).cache.device() == old(self).cache.device(),
            extends(old(self).cache.view(), final(self).cache.view()),
            r is Ok ==> bit_set(final(self).cache.view(), 2, 0) && bit_set(final(self).cache.view(), 2, 1)
                && sb_problem(old(self).superblock) is None,
            r matches Err(e) ==> e.kind == FsErrorKind::FileSystemCorruption || e.kind
                == FsErrorKind::InvalidArgument || e.kind == FsErrorKind::OutOfMemory || e.kind
                == FsErrorKind::IOError,
            old(self).inode_bitmap.bits_len >= 2 && old(self).cache.view().dom().contains(bit_blk(2, 0)) ==> ({
                let v0 = old(self).cache.view();
                &&& !bit_set(v0, 2, 0) ==> (r matches Err(e) && e.kind == FsErrorKind::FileSystemCorruption
                    && opt_str_view(e.msg) == Some(unreserved_msg()))
                &&& bit_set(v0, 2, 0) && !bit_set(v0, 2, 1) ==> (r matches Err(e) && e.kind
                    == FsErrorKind::FileSystemCorruption && opt_str_view(e.msg) == Some(no_root_msg()))
                &&& bit_set(v0, 2, 0) && bit_set(v0, 2, 1) ==> (r is Ok <==> sb_problem(old(self).superblock) is None)
                    && (r matches Err(e) ==> e.kind == FsErrorKind::FileSystemCorruption && opt_str_view(e.msg)
                    == sb_problem(old(self).superblock))
            }),
    {
        let ghost v0 = self.cache.view();
        proof {
            assert(bit_blk(2, 1) == bit_blk(2, 0));
        }
        match self.is_inode_used(INVALID_INODE_NO) {
            Ok(true) => {},
            Ok(false) => {
                return Err(
                    FsError::with_fmt_args(
                        FsErrorKind::FileSystemCorruption,
                        "efs: the inode index 0 should be reserved for representing no inode",
                    ),
                );
            },
            Err(e) => {
                return Err(e);
            },
        }
        let ghost mid = self.cache.view();
        match self.is_inode_used(ROOT_INODE_NO) {
            Ok(true) => {},
            Ok(false) => {
                return Err(
                    FsError::with_fmt_args(FsErrorKind::FileSystemCorruption, "efs: the root is not present"),
                );
            },
            Err(e) => {
                return Err(e);
            },
        }
        proof {
            assert(mid.dom().contains(bit_blk(2, 0)));
            assert(bit_set(self.cache.view(), 2, 0));
            if v0.dom().contains(bit_blk(2, 0)) {
                assert(self.cache.view()[bit_blk(2, 0)] == v0[bit_blk(2, 0)]);
            }
        }
        self.superblock.verify()
    }

    /// Opens the file system on `dev` and checks it.
    pub fn open(dev: D, config: FsConfig<A>) -> (r: Result<Self, FsError>)
        ensures
            r matches Ok(fs) ==> fs.wf() && fs.cache.device() == dev && bit_set(fs.cache.view(), 2, 0)
                && bit_set(fs.cache.view(), 2, 1) && sb_problem(fs.superblock) is None,
            r matches Err(e) ==> e.kind == FsErrorKind::FileSystemCorruption || e.kind
                == FsErrorKind::InvalidArgument || e.kind == FsErrorKind::OutOfMemory || e.kind
                == FsErrorKind::IOError,
    {
        let mut fs = match Self::new_self_ref_without_verify(dev, config) {
            Ok(fs) => fs,
            Err(e) => {
                return Err(e);
            },
        };
        match fs.verify() {
            Ok(()) => Ok(fs),
            Err(e) => Err(e),
        }
    }

    /// Makes a new file system on `dev` with layout `sb`: writes the
    /// superblock, reserves the first inodes, sets up the root directory
    /// and checks the result. A superblock that `verify` refuses is
    /// refused here.
    pub fn make(dev: D, sb: RawSuperBlock, config: FsConfig<A>) -> (r: Result<Self, FsError>)
        ensures
            sb_problem(sb) is Some ==> (r matches Err(e) && e.kind == FsErrorKind::FileSystemCorruption
                && opt_str_view(e.msg) == sb_problem(sb)),
            r matches Ok(fs) ==> fs.wf() && bit_set(fs.cache.view(), 2, 0) && bit_set(fs.cache.view(), 2, 1)
                && sb_problem(fs.superblock) is None,
            r matches Ok(fs) ==> ({
                let v = fs.cache.view();
                let root = (INode { ino: 1, blk_no: (2 + fs.superblock.inode_bitmap_blocks) as u64, blk_offset: 132 });
                let n = root.raw(v);
                root_fits(fs, root) ==> {
                    &&& spec_file_type(n) == FileType::Directory
                    &&& n.nlink == 1
                    &&& n.size == 80
                    &&& entry_placed(v, n, 0)
                    &&& entry_at(v, n, 0).inode_no == 1
                    &&& entry_at(v, n, 0).typ == FileType::Directory
                    &&& dirent_name(entry_at(v, n, 0)) == seq![46u8]
                }
            }),
    {
        let max_transactions = config.max_transactions;
        let max_cached_blocks = config.max_cached_blocks;
        let mut cache = BlockCacheManager::new(dev, config.block_buffer_allocator);
        match sb.verify() {
            Ok(()) => {},
            Err(e) => {
                return Err(e);
            },
        }
        match sb.write(&mut cache) {
            Ok(()) => {},
            Err(e) => {
                return Err(e);
            },
        }
        let _ = cache.sync_all();
        let (dev, allocator) = cache.into_parts();
        let config = FsConfig { max_transactions, max_cached_blocks, block_buffer_allocator: allocator };
        let mut fs = match Self::new_self_ref_without_verify(dev, config) {
            Ok(fs) => fs,
            Err(e) => {
                return Err(e);
            },
        };
        let mut ino: u64 = 0;
        while ino < RESERVED_INODE_NUM_END
            invariant
                fs.wf(),
                sb_problem(sb) is None,
            decreases RESERVED_INODE_NUM_END - ino,
        {
            match fs.set_inode_bit(ino) {
                Ok(()) => {},
                Err(e) => {
                    return Err(e);
                },
            }
            ino += 1;
        }
        let root_inode = INode::new(&fs, ROOT_INODE_NO);
        match root_inode.init_root_dir(&mut fs) {
            Ok(()) => {},
            Err(e) => {
                return Err(e);
            },
        }
        let ghost vr = fs.cache.view();
        let rv = fs.verify();
        proof {
            if root_fits(fs, root_inode) {
                let n = root_inode.raw(vr);
                lemma_stored_extends(vr, fs.cache.view(), root_inode.blk_no, root_inode.blk_offset as int, n);
                lemma_entry_placed_extends(vr, fs.cache.view(), n, 0);
            }
        }
        match rv {
            Ok(()) => Ok(fs),
            Err(e) => Err(e),
        }
    }
}

} // verus!
