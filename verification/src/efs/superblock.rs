//! The superblock: where the file system's regions start and how large
//! they are. It lives in block 1 as six little-endian fields.

use vstd::prelude::*;
use crate::errors::{FsError, FsErrorKind, opt_str_view};
use crate::le::{le_value, le_bytes, read_le, write_le, lemma_le_round_trip, lemma_pow256_values};
use crate::efs::consts::{BLOCK_SIZE, NINODES_PER_BLOCK};
use crate::efs::dev::BlockDevice;
use crate::efs::buffer::BlockBufferAllocator;
use crate::efs::cache::{BlockCacheManager, extends, written};

verus! {

/// The magic number of the file system.
pub const EFS_SB_MAGIC: u32 = 0xEFFF;

/// The block that holds the superblock.
pub const SUPERBLOCK_BLOCK_NO: u64 = 1;

/// The size of the superblock on disk.
pub const RAW_SUPERBLOCK_SIZE: usize = 44;

/// The layout of a file system.
#[derive(Clone, Copy, Debug)]
pub struct RawSuperBlock {
    pub magic: u32,
    pub size: u64,
    pub inode_bitmap_blocks: u64,
    pub inode_blocks: u64,
    pub data_bitmap_blocks: u64,
    pub data_blocks: u64,
}

/// Whether `b` is the on-disk form of `sb`.
pub open spec fn sb_bytes(b: Seq<u8>, sb: RawSuperBlock) -> bool {
    &&& b.len() == RAW_SUPERBLOCK_SIZE
    &&& le_value(b.subrange(0, 4)) == sb.magic
    &&& le_value(b.subrange(4, 12)) == sb.size
    &&& le_value(b.subrange(12, 20)) == sb.inode_bitmap_blocks
    &&& le_value(b.subrange(20, 28)) == sb.inode_blocks
    &&& le_value(b.subrange(28, 36)) == sb.data_bitmap_blocks
    &&& le_value(b.subrange(36, 44)) == sb.data_blocks
}

/// How many blocks are needed for `n` units when a block takes `per`.
pub open spec fn ceil_div(n: int, per: int) -> int {
    (n + per - 1) / per
}

/// The superblock that `RawSuperBlock::new` lays out.
pub open spec fn spec_layout(potential_size: int, inode_size: int) -> RawSuperBlock {
    let cnt = potential_size / 4096;
    let inode_blocks = ceil_div(inode_size, 4096int);
    let inode_bitmap_blocks = ceil_div(inode_size, 32768int);
    let remaining = cnt - inode_blocks - inode_bitmap_blocks - 2;
    let data_bitmap_blocks = ceil_div(remaining, 32768int);
    RawSuperBlock {
        magic: EFS_SB_MAGIC,
        size: (cnt * 4096) as u64,
        inode_bitmap_blocks: inode_bitmap_blocks as u64,
        inode_blocks: inode_blocks as u64,
        data_bitmap_blocks: data_bitmap_blocks as u64,
        data_blocks: (remaining - data_bitmap_blocks) as u64,
    }
}

/// Whether a bitmap of `blocks` blocks has room for `bits` bits.
pub open spec fn bitmap_fits(blocks: int, bits: int) -> bool {
    blocks * (BLOCK_SIZE * 8) >= bits
}

/// The first error that `verify` finds, if any.
pub open spec fn sb_problem(sb: RawSuperBlock) -> Option<Seq<char>> {
    if sb.magic != EFS_SB_MAGIC {
        Some("efs superblock: invalid magic number"@)
    } else if !bitmap_fits(sb.inode_bitmap_blocks as int, sb.inode_blocks * NINODES_PER_BLOCK) {
        Some("efs superblock: bad inode bitmap"@)
    } else if !bitmap_fits(sb.data_bitmap_blocks as int, sb.data_blocks as int) {
        Some("efs superblock: bad data bitmap"@)
    } else {
        None
    }
}

impl RawSuperBlock {
    /// Every region's start fits a block number and the region sizes fit
    /// the machine's sizes.
    pub open spec fn layout_ok(&self) -> bool {
        &&& 2 + self.inode_bitmap_blocks + self.inode_blocks + self.data_bitmap_blocks
            + self.data_blocks <= u64::MAX
        &&& self.inode_blocks * NINODES_PER_BLOCK + 32768 <= usize::MAX
        &&& self.data_blocks + 32768 <= usize::MAX
    }

    /// The layout of a file system of `potential_size` bytes with
    /// `inode_size` bytes of inodes: block 0 is left alone, block 1 holds
    /// the superblock, then come the inode bitmap, the inodes, the data
    /// bitmap and the data blocks.
    pub fn new(potential_size: usize, inode_size: usize) -> (r: Self)
        requires
            potential_size % BLOCK_SIZE == 0,
            potential_size > BLOCK_SIZE * 128,
            potential_size > inode_size,
            inode_size > 1024 * 8,
            potential_size / 4096 >= ceil_div(inode_size as int, 4096int) + ceil_div(
                inode_size as int,
                32768int,
            ) + 2,
        ensures
            r == spec_layout(potential_size as int, inode_size as int),
    {
        let potential_block_cnt = potential_size / BLOCK_SIZE;
        let inode_blocks = ((inode_size + (BLOCK_SIZE - 1)) / BLOCK_SIZE) as u64;
        let inode_bitmap_blocks = ((inode_size + (BLOCK_SIZE * 8 - 1)) / (BLOCK_SIZE * 8)) as u64;
        let remaining = potential_block_cnt as u64 - inode_blocks - inode_bitmap_blocks - 2;
        let data_bitmap_blocks = (remaining + (BLOCK_SIZE as u64 * 8 - 1)) / (BLOCK_SIZE as u64 * 8);
        proof {
            assert(data_bitmap_blocks <= remaining) by (nonlinear_arith)
                requires
                    data_bitmap_blocks == (remaining + 32767) / 32768,
            ;
            assert(potential_block_cnt * 4096 == potential_size) by (nonlinear_arith)
                requires
                    potential_block_cnt == potential_size / 4096,
                    potential_size % 4096 == 0,
            ;
        }
        let data_blocks = remaining - data_bitmap_blocks;
        RawSuperBlock {
            magic: EFS_SB_MAGIC,
            size: (potential_block_cnt * BLOCK_SIZE) as u64,
            inode_bitmap_blocks,
            inode_blocks,
            data_bitmap_blocks,
            data_blocks,
        }
    }

    /// Checks the magic number and that each bitmap has room for its bits;
    /// the first failure is a `FileSystemCorruption` error naming it.
    pub fn verify(&self) -> (r: Result<(), FsError>)
        ensures
            r is Ok <==> sb_problem(*self) is None,
            r matches Err(e) ==> e.kind == FsErrorKind::FileSystemCorruption && opt_str_view(e.msg)
                == sb_problem(*self),
    {
        if self.magic != EFS_SB_MAGIC {
            return Err(
                FsError::with_fmt_args(
                    FsErrorKind::FileSystemCorruption,
                    "efs superblock: invalid magic number",
                ),
            );
        }
        if !Self::verify_bitmap(
            self.inode_bitmap_blocks as u128,
            self.inode_blocks as u128 * NINODES_PER_BLOCK as u128,
        ) {
            return Err(
                FsError::with_fmt_args(
                    FsErrorKind::FileSystemCorruption,
                    "efs superblock: bad inode bitmap",
                ),
            );
        }
        if !Self::verify_bitmap(self.data_bitmap_blocks as u128, self.data_blocks as u128) {
            return Err(
                FsError::with_fmt_args(
                    FsErrorKind::FileSystemCorruption,
                    "efs superblock: bad data bitmap",
                ),
            );
        }
        Ok(())
    }

    /// Whether `n_bitmap_blocks` bitmap blocks have room for `n_bits` bits.
    pub fn verify_bitmap(n_bitmap_blocks: u128, n_bits: u128) -> (r: bool)
        requires
            n_bitmap_blocks <= u64::MAX,
        ensures
            r == bitmap_fits(n_bitmap_blocks as int, n_bits as int),
    {
        assert(n_bitmap_blocks * 32768 <= 0xffff_ffff_ffff_ffff * 32768) by (nonlinear_arith)
            requires
                n_bitmap_blocks <= 0xffff_ffff_ffff_ffffu128,
        ;
        n_bitmap_blocks * (BLOCK_SIZE as u128 * 8) >= n_bits
    }

    /// The size of the file system in bytes.
    pub fn size(&self) -> (r: u64)
        ensures
            r == self.size,
    {
        self.size
    }

    /// The number of inode bitmap blocks.
    pub fn inode_bitmap_blocks(&self) -> (r: u64)
        ensures
            r == self.inode_bitmap_blocks,
    {
        self.inode_bitmap_blocks
    }

    /// The number of inode blocks.
    pub fn inode_blocks(&self) -> (r: u64)
        ensures
            r == self.inode_blocks,
    {
        self.inode_blocks
    }

    /// The number of data bitmap blocks.
    pub fn data_bitmap_blocks(&self) -> (r: u64)
        ensures
            r == self.data_bitmap_blocks,
    {
        self.data_bitmap_blocks
    }

    /// The number of data blocks.
    pub fn data_blocks(&self) -> (r: u64)
        ensures
            r == self.data_blocks,
    {
        self.data_blocks
    }

    /// The first block of the inode bitmap.
    pub fn inode_bitmap_start_bno(&self) -> (r: u64)
        ensures
            r == 2,
    {
        2
    }

    /// The first inode block.
    pub fn inode_start_bno(&self) -> (r: u64)
        requires
            self.layout_ok(),
        ensures
            r == 2 + self.inode_bitmap_blocks,
    {
        2 + self.inode_bitmap_blocks
    }

    /// The first block of the data bitmap.
    pub fn data_bitmap_start_bno(&self) -> (r: u64)
        requires
            self.layout_ok(),
        ensures
            r == 2 + self.inode_bitmap_blocks + self.inode_blocks,
    {
        self.inode_start_bno() + self.inode_blocks
    }

    /// The first data block.
    pub fn data_start_bno(&self) -> (r: u64)
        requires
            self.layout_ok(),
        ensures
            r == 2 + self.inode_bitmap_blocks + self.inode_blocks + self.data_bitmap_blocks,
    {
        self.data_bitmap_start_bno() + self.data_bitmap_blocks
    }

    /// The number of inodes of the file system.
    pub fn inode_counts(&self) -> (r: usize)
        requires
            self.layout_ok(),
        ensures
            r == self.inode_blocks * NINODES_PER_BLOCK,
    {
        self.inode_blocks as usize * NINODES_PER_BLOCK
    }

    /// The on-disk form of the superblock.
    pub fn to_bytes(&self) -> (r: Vec<u8>)
        ensures
            sb_bytes(r@, *self),
    {
        let mut b: Vec<u8> = vec![0u8; RAW_SUPERBLOCK_SIZE];
        write_le(&mut b, 0, 4, self.magic as u64);
        write_le(&mut b, 4, 8, self.size);
        write_le(&mut b, 12, 8, self.inode_bitmap_blocks);
        write_le(&mut b, 20, 8, self.inode_blocks);
        write_le(&mut b, 28, 8, self.data_bitmap_blocks);
        write_le(&mut b, 36, 8, self.data_blocks);
        proof {
            lemma_pow256_values();
            lemma_le_round_trip(self.magic as nat, 4);
            lemma_le_round_trip(self.size as nat, 8);
            lemma_le_round_trip(self.inode_bitmap_blocks as nat, 8);
            lemma_le_round_trip(self.inode_blocks as nat, 8);
            lemma_le_round_trip(self.data_bitmap_blocks as nat, 8);
            lemma_le_round_trip(self.data_blocks as nat, 8);
            let s = b@;
            assert(s.subrange(0, 4) =~= le_bytes(self.magic as nat, 4));
            assert(s.subrange(4, 12) =~= le_bytes(self.size as nat, 8));
            assert(s.subrange(12, 20) =~= le_bytes(self.inode_bitmap_blocks as nat, 8));
            assert(s.subrange(20, 28) =~= le_bytes(self.inode_blocks as nat, 8));
            assert(s.subrange(28, 36) =~= le_bytes(self.data_bitmap_blocks as nat, 8));
        }
        b
    }

    /// The superblock whose on-disk form is `b`.
    pub fn from_bytes(b: &[u8]) -> (r: Self)
        requires
            b@.len() == RAW_SUPERBLOCK_SIZE,
        ensures
            sb_bytes(b@, r),
    {
        proof {
            lemma_pow256_values();
            crate::le::lemma_le_value_bound(b@.subrange(0, 4));
        }
        RawSuperBlock {
            magic: read_le(b, 0, 4) as u32,
            size: read_le(b, 4, 8),
            inode_bitmap_blocks: read_le(b, 12, 8),
            inode_blocks: read_le(b, 20, 8),
            data_bitmap_blocks: read_le(b, 28, 8),
            data_blocks: read_le(b, 36, 8),
        }
    }

    /// Reads the superblock from its block.
    pub fn read<D: BlockDevice, A: BlockBufferAllocator>(cache: &mut BlockCacheManager<D, A>) -> (r:
        Result<Self, FsError>)
        requires
            old(cache).wf(),
            old(cache).unbounded(),
        ensures
            final(cache).wf(),
            final(cache).unbounded(),
            final(cache).device() == old(cache).device(),
            extends(old(cache).view(), final(cache).view()),
            r matches Ok(sb) ==> final(cache).view().dom().contains(SUPERBLOCK_BLOCK_NO) && sb_bytes(
                final(cache).view()[SUPERBLOCK_BLOCK_NO].subrange(0, RAW_SUPERBLOCK_SIZE as int),
                sb,
            ),
            r matches Err(e) ==> e.kind == FsErrorKind::OutOfMemory || e.kind == FsErrorKind::IOError,
    {
        match cache.read_vec(SUPERBLOCK_BLOCK_NO, 0, RAW_SUPERBLOCK_SIZE) {
            Ok(v) => Ok(Self::from_bytes(v.as_slice())),
            Err(e) => Err(e),
        }
    }

    /// Writes the superblock into its block and the block to the device.
    pub fn write<D: BlockDevice, A: BlockBufferAllocator>(self, cache: &mut BlockCacheManager<D, A>) -> (r:
        Result<(), FsError>)
        requires
            old(cache).wf(),
            old(cache).unbounded(),
        ensures
            final(cache).wf(),
            final(cache).unbounded(),
            final(cache).device() == old(cache).device(),
            r is Ok ==> exists|b: Seq<u8>| sb_bytes(b, self) && written(
                old(cache).view(),
                final(cache).view(),
                SUPERBLOCK_BLOCK_NO,
                0,
                b,
            ),
            r matches Err(e) ==> e.kind == FsErrorKind::OutOfMemory || e.kind == FsErrorKind::IOError,
    {
        let bytes = self.to_bytes();
        match cache.copy_in(SUPERBLOCK_BLOCK_NO, 0, bytes.as_slice(), 0, RAW_SUPERBLOCK_SIZE) {
            Ok(()) => {
                assert(bytes@.subrange(0, RAW_SUPERBLOCK_SIZE as int) =~= bytes@);
                cache.sync_block(SUPERBLOCK_BLOCK_NO)
            },
            Err(e) => Err(e),
        }
    }
}

/// A layout that `RawSuperBlock::new` computes passes `verify`: its
/// magic number is right and each bitmap has room for all its bits.
pub proof fn lemma_layout_verifies(potential_size: int, inode_size: int)
    requires
        potential_size % 4096 == 0,
        potential_size > 4096 * 128,
        potential_size > inode_size,
        inode_size > 1024 * 8,
        potential_size <= usize::MAX,
        potential_size / 4096 >= ceil_div(inode_size, 4096int) + ceil_div(inode_size, 32768int) + 2,
    ensures
        sb_problem(spec_layout(potential_size, inode_size)) is None,
{
    let sb = spec_layout(potential_size, inode_size);
    let ib = ceil_div(inode_size, 4096int);
    let ibm = ceil_div(inode_size, 32768int);
    let cnt = potential_size / 4096;
    let rem = cnt - ib - ibm - 2;
    let dbm = ceil_div(rem, 32768int);
    assert(ib * 31 <= ibm * 32768) by (nonlinear_arith)
        requires
            ib == (inode_size + 4095) / 4096,
            ibm == (inode_size + 32767) / 32768,
            inode_size > 8192,
    ;
    assert(0 <= dbm <= rem && rem - dbm <= dbm * 32768) by (nonlinear_arith)
        requires
            dbm == (rem + 32767) / 32768,
            rem >= 0,
    ;
    assert(0 <= ib <= cnt && 0 <= ibm <= cnt) by (nonlinear_arith)
        requires
            ib == (inode_size + 4095) / 4096,
            ibm == (inode_size + 32767) / 32768,
            inode_size > 8192,
            cnt >= ib + ibm + 2,
    ;
    assert(cnt <= u64::MAX) by (nonlinear_arith)
        requires
            cnt == potential_size / 4096,
            0 <= potential_size <= usize::MAX,
    ;
    assert(sb.inode_blocks == ib);
    assert(sb.inode_bitmap_blocks == ibm);
    assert(sb.data_bitmap_blocks == dbm);
    assert(sb.data_blocks == rem - dbm);
}

/// The on-disk form of a superblock gives back that superblock only, so
/// reading what `to_bytes` wrote gives the superblock written.
pub proof fn lemma_sb_bytes_unique(b: Seq<u8>, a: RawSuperBlock, c: RawSuperBlock)
    requires
        sb_bytes(b, a),
        sb_bytes(b, c),
    ensures
        a == c,
{
}

} // verus!
