//! Inodes on disk: their type, size, link count and block pointers.

use vstd::prelude::*;
use crate::errors::{FsError, FsErrorKind};
use crate::fcntl;
use crate::le::{le_value, le_bytes, read_le, write_le, lemma_le_round_trip, lemma_pow256_values, lemma_le_value_bound};
use crate::efs::consts::{NUM_DIRECT_DATA_BLKS, RAW_INODE_SIZE, INVALID_DATA_BLOCK_NO};

verus! {

/// The type of an inode, stored as a 32-bit number.
#[derive(Debug, Clone, Copy, PartialEq, Eq, Structural)]
pub enum FileType {
    Unknown,
    Directory,
    File,
    Device,
    Symlink,
}

/// The number a type is stored as.
pub open spec fn spec_type_code(t: FileType) -> u32 {
    match t {
        FileType::Unknown => 0,
        FileType::Directory => 1,
        FileType::File => 2,
        FileType::Device => 3,
        FileType::Symlink => 4,
    }
}

/// The type a stored number stands for; numbers past 4 stand for none.
pub open spec fn spec_type_of(n: u32) -> Option<FileType> {
    if n == 0 {
        Some(FileType::Unknown)
    } else if n == 1 {
        Some(FileType::Directory)
    } else if n == 2 {
        Some(FileType::File)
    } else if n == 3 {
        Some(FileType::Device)
    } else if n == 4 {
        Some(FileType::Symlink)
    } else {
        None
    }
}

impl FileType {
    /// The number the type is stored as.
    pub fn to_u32(self) -> (r: u32)
        ensures
            r == spec_type_code(self),
    {
        match self {
            FileType::Unknown => 0,
            FileType::Directory => 1,
            FileType::File => 2,
            FileType::Device => 3,
            FileType::Symlink => 4,
        }
    }

    /// The type stored as `n`, if any.
    pub fn try_from_primitive(n: u32) -> (r: Option<FileType>)
        ensures
            r == spec_type_of(n),
    {
        if n == 0 {
            Some(FileType::Unknown)
        } else if n == 1 {
            Some(FileType::Directory)
        } else if n == 2 {
            Some(FileType::File)
        } else if n == 3 {
            Some(FileType::Device)
        } else if n == 4 {
            Some(FileType::Symlink)
        } else {
            None
        }
    }

    /// The file type the kernel sees; an unknown type is `InvalidData`.
    pub fn to_fcntl(self) -> (r: Result<fcntl::FileType, FsError>)
        ensures
            self == FileType::File ==> r == Ok::<fcntl::FileType, FsError>(fcntl::FileType::RegularFile),
            self == FileType::Directory ==> r == Ok::<fcntl::FileType, FsError>(fcntl::FileType::Directory),
            self == FileType::Device ==> r == Ok::<fcntl::FileType, FsError>(fcntl::FileType::Device),
            self == FileType::Symlink ==> r == Ok::<fcntl::FileType, FsError>(fcntl::FileType::Symlink),
            self == FileType::Unknown ==> (r matches Err(e) && e.kind == FsErrorKind::InvalidData),
    {
        match self {
            FileType::File => Ok(fcntl::FileType::RegularFile),
            FileType::Directory => Ok(fcntl::FileType::Directory),
            FileType::Device => Ok(fcntl::FileType::Device),
            FileType::Symlink => Ok(fcntl::FileType::Symlink),
            FileType::Unknown => Err(FsError::from(FsErrorKind::InvalidData)),
        }
    }
}

/// An inode as it is stored.
#[derive(Clone, Copy)]
pub struct RawINode {
    pub typ: u32,
    pub size: u64,
    pub nlink: u32,
    pub dev_no: u32,
    pub direct_blk_ptrs: [u64; 12],
    pub indirect_blk_ptr: u64,
    pub double_indirect_blk_ptr: u64,
}

/// The type an inode records; a number that names no type reads as
/// `Unknown`.
pub open spec fn spec_file_type(n: RawINode) -> FileType {
    match spec_type_of(n.typ) {
        Some(t) => t,
        None => FileType::Unknown,
    }
}

/// Whether `b` is the on-disk form of `n`.
pub open spec fn inode_bytes(b: Seq<u8>, n: RawINode) -> bool {
    &&& b.len() == RAW_INODE_SIZE
    &&& le_value(b.subrange(0, 4)) == n.typ
    &&& le_value(b.subrange(4, 12)) == n.size
    &&& le_value(b.subrange(12, 16)) == n.nlink
    &&& le_value(b.subrange(16, 20)) == n.dev_no
    &&& forall|i: int|
        0 <= i < 12 ==> #[trigger] le_value(b.subrange(20 + 8 * i, 28 + 8 * i))
            == n.direct_blk_ptrs@[i]
    &&& le_value(b.subrange(116, 124)) == n.indirect_blk_ptr
    &&& le_value(b.subrange(124, 132)) == n.double_indirect_blk_ptr
}

/// Whether `n` is the inode of a fresh file of type `typ` on device
/// `dev_no`: empty, unlinked, with no blocks.
pub open spec fn is_fresh(n: RawINode, typ: FileType, dev_no: u32) -> bool {
    &&& n.typ == spec_type_code(typ)
    &&& n.size == 0
    &&& n.nlink == 0
    &&& n.dev_no == dev_no
    &&& forall|i: int| 0 <= i < 12 ==> #[trigger] n.direct_blk_ptrs@[i] == 0
    &&& n.indirect_blk_ptr == 0
    &&& n.double_indirect_blk_ptr == 0
}

impl RawINode {
    /// An unused inode: unknown type, empty, unlinked, with no blocks.
    pub fn default() -> (r: Self)
        ensures
            is_fresh(r, FileType::Unknown, 0),
    {
        RawINode {
            typ: 0,
            size: 0,
            nlink: 0,
            dev_no: 0,
            direct_blk_ptrs: [INVALID_DATA_BLOCK_NO; 12],
            indirect_blk_ptr: INVALID_DATA_BLOCK_NO,
            double_indirect_blk_ptr: INVALID_DATA_BLOCK_NO,
        }
    }

    /// The recorded type.
    pub fn file_type(&self) -> (r: FileType)
        ensures
            r == spec_file_type(*self),
    {
        match FileType::try_from_primitive(self.typ) {
            Some(t) => t,
            None => FileType::Unknown,
        }
    }

    /// Records type `typ`.
    pub fn set_file_type(&mut self, typ: FileType)
        ensures
            *final(self) == (RawINode { typ: spec_type_code(typ), ..*old(self) }),
    {
        self.typ = typ.to_u32();
    }

    /// The size of the content in bytes.
    pub fn size(&self) -> (r: u64)
        ensures
            r == self.size,
    {
        self.size
    }

    /// The number of directory entries that name the inode.
    pub fn nlink(&self) -> (r: u32)
        ensures
            r == self.nlink,
    {
        self.nlink
    }

    /// One more link.
    pub fn increase_link(&mut self)
        requires
            old(self).nlink < u32::MAX,
        ensures
            *final(self) == (RawINode { nlink: (old(self).nlink + 1) as u32, ..*old(self) }),
    {
        self.nlink = self.nlink + 1;
    }

    /// One link less, stopping at zero.
    pub fn decrease_link(&mut self)
        ensures
            *final(self) == (RawINode {
                nlink: if old(self).nlink == 0 {
                    0
                } else {
                    (old(self).nlink - 1) as u32
                },
                ..*old(self)
            }),
    {
        self.nlink = self.nlink.saturating_sub(1);
    }

    /// The device number of a device inode.
    pub fn dev_no(&self) -> (r: u32)
        ensures
            r == self.dev_no,
    {
        self.dev_no
    }

    /// The on-disk form of the inode.
    pub fn to_bytes(&self) -> (r: Vec<u8>)
        ensures
            inode_bytes(r@, *self),
    {
        let mut b: Vec<u8> = vec![0u8; RAW_INODE_SIZE];
        proof {
            lemma_pow256_values();
        }
        write_le(&mut b, 0, 4, self.typ as u64);
        let ghost s0 = b@;
        write_le(&mut b, 4, 8, self.size);
        let ghost s1 = b@;
        write_le(&mut b, 12, 4, self.nlink as u64);
        let ghost s2 = b@;
        write_le(&mut b, 16, 4, self.dev_no as u64);
        let ghost head = b@;
        proof {
            assert(head.subrange(0, 4) =~= s0.subrange(0, 4));
            assert(head.subrange(4, 12) =~= s1.subrange(4, 12));
            assert(head.subrange(12, 16) =~= s2.subrange(12, 16));
            assert(head.subrange(0, 4) =~= le_bytes(self.typ as nat, 4));
        }
        let mut i: usize = 0;
        while i < NUM_DIRECT_DATA_BLKS
            invariant
                i <= 12,
                b@.len() == RAW_INODE_SIZE,
                head.len() == RAW_INODE_SIZE,
                b@.subrange(0, 20) == head.subrange(0, 20),
                forall|j: int|
                    0 <= j < i ==> #[trigger] b@.subrange(20 + 8 * j, 28 + 8 * j) == le_bytes(
                        self.direct_blk_ptrs@[j] as nat,
                        8,
                    ),
            decreases 12 - i,
        {
            let ghost pre = b@;
            write_le(&mut b, 20 + 8 * i, 8, self.direct_blk_ptrs[i]);
            proof {
                assert(b@.subrange(0, 20) =~= pre.subrange(0, 20));
                assert forall|j: int| 0 <= j < i + 1 implies #[trigger] b@.subrange(20 + 8 * j, 28 + 8 * j)
                    == le_bytes(self.direct_blk_ptrs@[j] as nat, 8) by {
                    if j < i {
                        assert(b@.subrange(20 + 8 * j, 28 + 8 * j) =~= pre.subrange(20 + 8 * j, 28 + 8 * j));
                    }
                }
            }
            i += 1;
        }
        let ghost mid = b@;
        write_le(&mut b, 116, 8, self.indirect_blk_ptr);
        let ghost s3 = b@;
        write_le(&mut b, 124, 8, self.double_indirect_blk_ptr);
        proof {
            let s = b@;
            assert(s.subrange(116, 124) =~= s3.subrange(116, 124));
            assert(s.subrange(0, 20) =~= mid.subrange(0, 20));
            assert(s.subrange(0, 20) =~= head.subrange(0, 20));
            assert(s.subrange(0, 4) =~= s.subrange(0, 20).subrange(0, 4));
            assert(head.subrange(0, 4) =~= head.subrange(0, 20).subrange(0, 4));
            assert(s.subrange(4, 12) =~= s.subrange(0, 20).subrange(4, 12));
            assert(head.subrange(4, 12) =~= head.subrange(0, 20).subrange(4, 12));
            assert(s.subrange(12, 16) =~= s.subrange(0, 20).subrange(12, 16));
            assert(head.subrange(12, 16) =~= head.subrange(0, 20).subrange(12, 16));
            assert(s.subrange(16, 20) =~= s.subrange(0, 20).subrange(16, 20));
            assert(head.subrange(16, 20) =~= head.subrange(0, 20).subrange(16, 20));
            assert(s.subrange(0, 4) =~= head.subrange(0, 4));
            assert(s.subrange(4, 12) =~= head.subrange(4, 12));
            assert(s.subrange(12, 16) =~= head.subrange(12, 16));
            assert(s.subrange(16, 20) =~= head.subrange(16, 20));
            lemma_le_round_trip(self.typ as nat, 4);
            lemma_le_round_trip(self.size as nat, 8);
            lemma_le_round_trip(self.nlink as nat, 4);
            lemma_le_round_trip(self.dev_no as nat, 4);
            lemma_le_round_trip(self.indirect_blk_ptr as nat, 8);
            lemma_le_round_trip(self.double_indirect_blk_ptr as nat, 8);
            assert forall|j: int| 0 <= j < 12 implies #[trigger] le_value(s.subrange(20 + 8 * j, 28 + 8 * j))
                == self.direct_blk_ptrs@[j] by {
                assert(s.subrange(20 + 8 * j, 28 + 8 * j) =~= mid.subrange(20 + 8 * j, 28 + 8 * j));
                lemma_le_round_trip(self.direct_blk_ptrs@[j] as nat, 8);
            }
        }
        b
    }

    /// The inode whose on-disk form is `b`.
    pub fn from_bytes(b: &[u8]) -> (r: Self)
        requires
            b@.len() == RAW_INODE_SIZE,
        ensures
            inode_bytes(b@, r),
    {
        proof {
            lemma_pow256_values();
            lemma_le_value_bound(b@.subrange(0, 4));
            lemma_le_value_bound(b@.subrange(12, 16));
            lemma_le_value_bound(b@.subrange(16, 20));
        }
        let mut ptrs: [u64; 12] = [0u64; 12];
        let mut i: usize = 0;
        while i < NUM_DIRECT_DATA_BLKS
            invariant
                i <= 12,
                b@.len() == RAW_INODE_SIZE,
                forall|j: int|
                    0 <= j < i ==> #[trigger] le_value(b@.subrange(20 + 8 * j, 28 + 8 * j))
                        == ptrs@[j],
            decreases 12 - i,
        {
            let v = read_le(b, 20 + 8 * i, 8);
            ptrs[i] = v;
            i += 1;
        }
        let typ = read_le(b, 0, 4);
        let nlink = read_le(b, 12, 4);
        let dev_no = read_le(b, 16, 4);
        assert(typ < 0x1_0000_0000 && nlink < 0x1_0000_0000 && dev_no < 0x1_0000_0000);
        let r = RawINode {
            typ: typ as u32,
            size: read_le(b, 4, 8),
            nlink: nlink as u32,
            dev_no: dev_no as u32,
            direct_blk_ptrs: ptrs,
            indirect_blk_ptr: read_le(b, 116, 8),
            double_indirect_blk_ptr: read_le(b, 124, 8),
        };
        assert(forall|j: int| 0 <= j < 12 ==> #[trigger] le_value(b@.subrange(20 + 8 * j, 28 + 8 * j))
                        == r.direct_blk_ptrs@[j]);
        r
    }
}

/// An inode read back from its on-disk form is the inode written.
pub proof fn lemma_inode_bytes_unique(b: Seq<u8>, m: RawINode, n: RawINode)
    requires
        inode_bytes(b, m),
        inode_bytes(b, n),
    ensures
        m == n,
{
    assert forall|i: int| 0 <= i < 12 implies m.direct_blk_ptrs@[i] == n.direct_blk_ptrs@[i] by {
        assert(le_value(b.subrange(20 + 8 * i, 28 + 8 * i)) == m.direct_blk_ptrs@[i]);
    }
    assert(m.direct_blk_ptrs@ =~= n.direct_blk_ptrs@);
    assert(m.direct_blk_ptrs =~= n.direct_blk_ptrs);
}

} // verus!
