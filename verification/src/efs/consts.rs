//! The layout constants of the file system.

use vstd::prelude::*;

verus! {

/// The size of a block in bytes.
pub const BLOCK_SIZE: usize = 4096;

/// The block number that stands for "no data block".
pub const INVALID_DATA_BLOCK_NO: u64 = 0;

/// The inode number that stands for "no inode".
pub const INVALID_INODE_NO: u64 = 0;

/// The inode number of the root directory.
pub const ROOT_INODE_NO: u64 = 1;

/// The inode numbers below this are reserved when a file system is made.
pub const RESERVED_INODE_NUM_END: u64 = 20;

/// The number of direct data block pointers in an inode.
pub const NUM_DIRECT_DATA_BLKS: usize = 12;

/// How many block numbers one block holds.
pub const BLK_NUMS_PER_BLOCK: usize = 512;

/// The largest file the block pointers of an inode can address.
pub const MAX_FILE_SIZE: u64 = 1_075_888_128;

/// The size of an inode on disk.
pub const RAW_INODE_SIZE: usize = 132;

/// How many inodes one block holds.
pub const NINODES_PER_BLOCK: usize = 31;

/// The longest name a directory entry holds.
pub const FILE_NAME_LEN: usize = 64;

/// The size of a directory entry on disk.
pub const RAW_DIRENT_SIZE: u64 = 80;

/// The constants agree with one another.
pub proof fn lemma_layout_consts()
    ensures
        BLK_NUMS_PER_BLOCK * 8 == BLOCK_SIZE,
        MAX_FILE_SIZE == (NUM_DIRECT_DATA_BLKS + BLK_NUMS_PER_BLOCK + BLK_NUMS_PER_BLOCK
            * BLK_NUMS_PER_BLOCK) * BLOCK_SIZE,
        NINODES_PER_BLOCK == BLOCK_SIZE / RAW_INODE_SIZE,
{
    assert(4096usize / 132usize == 31usize) by (nonlinear_arith);
    assert(512 * 512 == 262144) by (nonlinear_arith);
    assert((12 + 512 + 262144) * 4096 == 1_075_888_128) by (nonlinear_arith);
}

} // verus!
