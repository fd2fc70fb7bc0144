//! Inode handles: an inode number and where its record sits, with the
//! file and directory operations that read and update the record.

use vstd::prelude::*;
use crate::errors::{FsError, FsErrorKind, opt_str_view};
use crate::efs::consts::{BLOCK_SIZE, RAW_INODE_SIZE, NINODES_PER_BLOCK};
use crate::efs::dev::BlockDevice;
use crate::efs::buffer::BlockBufferAllocator;
use crate::efs::cache::{extends, written, splice};
use crate::efs::fs::EfsFileSystem;
use crate::efs::inode::{RawINode, FileType, spec_file_type, inode_bytes, is_fresh, lemma_inode_bytes_unique};
use crate::efs::extent::{
    write_ready, write_hi, holds_prefix, lemma_sound_frame, lemma_prefix_frame, lemma_splice_outside, tables_placed,
    blocks_of, lemma_placed_frame, kept_outside, lemma_kept_frame, lemma_kept_extends, range_sound, byte_kept,
    high_kept, lemma_kept_high_frame, others_untouched, lemma_untouched_frame, marks_kept, fresh_blocks,
    lemma_fresh_frame, ptrs_kept, lemma_untouched_refl, lemma_untouched_extends, lemma_sound_sub,
};
use crate::efs::freeing::{trunc_freed, lemma_trunc_frame, lemma_trunc_rebase};
use crate::efs::file::{max_file_blocks, file_blk, tables_in_range, bytes_ready, lemma_ready_extends, blocks_in_place};
use crate::efs::file::{fs_same_layout, same_meta, read_len, write_len, file_byte, byte_known, write_unknown_msg, write_device_msg};

verus! {

/// Whether `n` is the inode record at byte `off` of cached block `blk`.
pub open spec fn stored_inode(view: Map<u64, Seq<u8>>, blk: u64, off: int, n: RawINode) -> bool {
    &&& view.dom().contains(blk)
    &&& inode_bytes(view[blk].subrange(off, off + RAW_INODE_SIZE), n)
}

/// The inode record at byte `off` of block `blk`.
pub open spec fn inode_in(view: Map<u64, Seq<u8>>, blk: u64, off: int) -> RawINode {
    choose|n: RawINode| stored_inode(view, blk, off, n)
}

/// A record that is stored is the record `inode_in` names.
pub proof fn lemma_inode_in(view: Map<u64, Seq<u8>>, blk: u64, off: int, n: RawINode)
    requires
        stored_inode(view, blk, off, n),
    ensures
        inode_in(view, blk, off) == n,
{
    let m = inode_in(view, blk, off);
    assert(stored_inode(view, blk, off, m));
    lemma_inode_bytes_unique(view[blk].subrange(off, off + RAW_INODE_SIZE), m, n);
}

/// A stored record stays stored when more blocks are read in.
pub proof fn lemma_stored_extends(a: Map<u64, Seq<u8>>, b: Map<u64, Seq<u8>>, blk: u64, off: int, n: RawINode)
    requires
        stored_inode(a, blk, off, n),
        extends(a, b),
    ensures
        stored_inode(b, blk, off, n),
        inode_in(b, blk, off) == n,
{
    assert(b[blk] == a[blk]);
    lemma_inode_in(b, blk, off, n);
}

/// Inode records at byte `a_off` of block `a` and at byte `b_off` of block
/// `b` do not overlap.
pub open spec fn records_apart(a: u64, a_off: int, b: u64, b_off: int) -> bool {
    a != b || a_off + 132 <= b_off || b_off + 132 <= a_off
}

/// Every inode record before the data bitmap at `start` that does not
/// overlap the record of `h` reads in `v2` as in `v`.
pub open spec fn others_kept(v: Map<u64, Seq<u8>>, v2: Map<u64, Seq<u8>>, start: u64, h: INode) -> bool {
    forall|cb: u64, co: int, m: RawINode|
        cb < start && 0 <= co && co + 132 <= 4096 && records_apart(cb, co, h.blk_no, h.blk_offset as int)
            && stored_inode(v, cb, co, m) ==> #[trigger] stored_inode(v2, cb, co, m)
}

/// `v2` is `v` (with more blocks read in) where only the bytes of the
/// record of `h` were written.
pub open spec fn only_record(v: Map<u64, Seq<u8>>, v2: Map<u64, Seq<u8>>, h: INode) -> bool {
    forall|x: u64| #[trigger]
        v.dom().contains(x) ==> v2.dom().contains(x) && (x != h.blk_no ==> v2[x] == v[x]) && (x == h.blk_no ==> v2[x]
            == splice(v[x], h.blk_offset as int, v2[x].subrange(h.blk_offset as int, h.blk_offset + 132)))
}

/// The inode of `h` has its record cached and before the data bitmap, and
/// all its file blocks laid out soundly within the largest file size.
pub open spec fn file_fits<D: BlockDevice, A: BlockBufferAllocator>(fs: EfsFileSystem<D, A>, h: INode) -> bool {
    &&& stored_inode(fs.cache.view(), h.blk_no, h.blk_offset as int, h.raw(fs.cache.view()))
    &&& h.blk_no < fs.data_bitmap.start_blk_no
    &&& range_sound(
        fs.cache.view(),
        h.raw(fs.cache.view()),
        fs.data_bitmap.start_blk_no,
        fs.data_start(),
        fs.superblock.data_blocks as int,
        0,
        blocks_of(h.raw(fs.cache.view()).size as int),
    )
    &&& blocks_of(h.raw(fs.cache.view()).size as int) <= max_file_blocks()
}

/// A truncation of the inode of `h` to `new_size` bytes finds its record
/// cached and before the data bitmap, and the tables of the file blocks it
/// frees placed.
pub open spec fn trunc_fits<D: BlockDevice, A: BlockBufferAllocator>(
    fs: EfsFileSystem<D, A>,
    h: INode,
    new_size: int,
) -> bool {
    &&& stored_inode(fs.cache.view(), h.blk_no, h.blk_offset as int, h.raw(fs.cache.view()))
    &&& h.blk_no < fs.data_bitmap.start_blk_no
    &&& tables_placed(
        fs.cache.view(),
        h.raw(fs.cache.view()),
        fs.data_bitmap.start_blk_no,
        fs.data_start(),
        fs.superblock.data_blocks as int,
        blocks_of(new_size),
        blocks_of(h.raw(fs.cache.view()).size as int),
    )
}

/// A write of `len` bytes at `offset` into the inode of `h` finds its
/// record cached and before the data bitmap, and the file blocks it
/// reaches laid out soundly.
pub open spec fn write_fits<D: BlockDevice, A: BlockBufferAllocator>(
    fs: EfsFileSystem<D, A>,
    h: INode,
    offset: int,
    len: int,
) -> bool {
    &&& stored_inode(fs.cache.view(), h.blk_no, h.blk_offset as int, h.raw(fs.cache.view()))
    &&& h.blk_no < fs.data_bitmap.start_blk_no
    &&& write_ready(fs, h.raw(fs.cache.view()), offset, len)
}

/// A read of `len` bytes at `offset` from the inode of `h` reads only
/// cached blocks: its record is cached, the offset is within the content,
/// the type can be read, and the bytes read lie in cached blocks in place.
pub open spec fn read_ready<D: BlockDevice, A: BlockBufferAllocator>(
    fs: EfsFileSystem<D, A>,
    h: INode,
    offset: int,
    len: int,
) -> bool {
    let n = h.raw(fs.cache.view());
    &&& stored_inode(fs.cache.view(), h.blk_no, h.blk_offset as int, n)
    &&& offset <= n.size
    &&& spec_file_type(n) != FileType::Unknown
    &&& spec_file_type(n) != FileType::Device
    &&& bytes_ready(fs.cache.view(), n, offset, read_len(n.size as int, offset, len))
}

/// The message of an attempt to set up an inode that is in use.
pub open spec fn init_in_use_msg() -> Seq<char> {
    "Caller attempts to init a available raw inode."@
}

/// The message of a truncation that would grow a file.
pub open spec fn grow_msg() -> Seq<char> {
    "the new size is greater than the file size."@
}

/// A handle on inode `ino`, whose record sits at byte `blk_offset` of
/// block `blk_no`.
#[derive(Clone, Copy, Debug)]
pub struct INode {
    pub ino: u64,
    pub blk_no: u64,
    pub blk_offset: usize,
}

impl INode {
    /// The record lies within its block.
    pub open spec fn wf(&self) -> bool {
        self.blk_offset + RAW_INODE_SIZE <= BLOCK_SIZE
    }

    /// The record of the inode in `view`.
    pub open spec fn raw(&self, view: Map<u64, Seq<u8>>) -> RawINode {
        inode_in(view, self.blk_no, self.blk_offset as int)
    }

    /// The handle on inode `ino` of `fs`.
    pub fn new<D: BlockDevice, A: BlockBufferAllocator>(fs: &EfsFileSystem<D, A>, ino: u64) -> (r: Self)
        requires
            fs.wf(),
            2 + fs.superblock.inode_bitmap_blocks + ino / 31 <= u64::MAX,
        ensures
            r.wf(),
            r.ino == ino,
            r.blk_no == 2 + fs.superblock.inode_bitmap_blocks + ino / 31,
            r.blk_offset == 132 * (ino % 31),
    {
        let start_blk_no = fs.superblock().inode_start_bno();
        let blk_no = start_blk_no + ino / NINODES_PER_BLOCK as u64;
        let blk_offset = RAW_INODE_SIZE * (ino % NINODES_PER_BLOCK as u64) as usize;
        INode { ino, blk_no, blk_offset }
    }

    /// The inode number.
    pub fn inode_no(&self) -> (r: u64)
        ensures
            r == self.ino,
    {
        self.ino
    }

    /// Reads the inode's record.
    pub fn read_raw_inode<D: BlockDevice, A: BlockBufferAllocator>(&self, fs: &mut EfsFileSystem<D, A>) -> (r:
        Result<RawINode, FsError>)
        requires
            self.wf(),
            old(fs).wf(),
        ensures
            old(fs).cache.view().dom().contains(self.blk_no) ==> r is Ok,
            old(fs).cache.view().dom().contains(self.blk_no) ==> final(fs).cache.view() == old(fs).cache.view(),
            fs_same_layout(*old(fs), *final(fs)),
            extends(old(fs).cache.view(), final(fs).cache.view()),
            r matches Ok(n) ==> stored_inode(final(fs).cache.view(), self.blk_no, self.blk_offset as int, n)
                && n == self.raw(final(fs).cache.view()),
            r matches Err(e) ==> e.kind == FsErrorKind::OutOfMemory || e.kind == FsErrorKind::IOError,
    {
        match fs.cache.read_vec(self.blk_no, self.blk_offset, RAW_INODE_SIZE) {
            Ok(v) => {
                let n = RawINode::from_bytes(v.as_slice());
                proof {
                    lemma_inode_in(fs.cache.view(), self.blk_no, self.blk_offset as int, n);
                    if old(fs).cache.view().dom().contains(self.blk_no) {
                        assert(fs.cache.view() =~= old(fs).cache.view());
                    }
                }
                Ok(n)
            },
            Err(e) => Err(e),
        }
    }

    /// Writes `n` as the inode's record.
    pub fn write_raw_inode<D: BlockDevice, A: BlockBufferAllocator>(
        &self,
        fs: &mut EfsFileSystem<D, A>,
        n: RawINode,
    ) -> (r: Result<(), FsError>)
        requires
            self.wf(),
            old(fs).wf(),
        ensures
            old(fs).cache.view().dom().contains(self.blk_no) ==> r is Ok,
            fs_same_layout(*old(fs), *final(fs)),
            r is Ok ==> written(
                old(fs).cache.view(),
                final(fs).cache.view(),
                self.blk_no,
                self.blk_offset as int,
                final(fs).cache.view()[self.blk_no].subrange(
                    self.blk_offset as int,
                    self.blk_offset + RAW_INODE_SIZE,
                ),
            ) && stored_inode(final(fs).cache.view(), self.blk_no, self.blk_offset as int, n)
                && self.raw(final(fs).cache.view()) == n,
            r matches Err(e) ==> final(fs).cache.view() == old(fs).cache.view() && (e.kind
                == FsErrorKind::OutOfMemory || e.kind == FsErrorKind::IOError),
    {
        let bytes = n.to_bytes();
        let r = fs.cache.copy_in(self.blk_no, self.blk_offset, bytes.as_slice(), 0, RAW_INODE_SIZE);
        proof {
            if r is Ok {
                assert(bytes@.subrange(0, RAW_INODE_SIZE as int) =~= bytes@);
                lemma_inode_in(fs.cache.view(), self.blk_no, self.blk_offset as int, n);
            }
        }
        r
    }

    /// The size of the inode's content.
    pub fn size<D: BlockDevice, A: BlockBufferAllocator>(&self, fs: &mut EfsFileSystem<D, A>) -> (r: Result<u64, FsError>)
        requires
            self.wf(),
            old(fs).wf(),
        ensures
            fs_same_layout(*old(fs), *final(fs)),
            extends(old(fs).cache.view(), final(fs).cache.view()),
            r matches Ok(s) ==> s == self.raw(final(fs).cache.view()).size && stored_inode(
                final(fs).cache.view(),
                self.blk_no,
                self.blk_offset as int,
                self.raw(final(fs).cache.view()),
            ),
            r matches Err(e) ==> e.kind == FsErrorKind::OutOfMemory || e.kind == FsErrorKind::IOError,
    {
        match self.read_raw_inode(fs) {
            Ok(n) => Ok(n.size()),
            Err(e) => Err(e),
        }
    }

    /// The type of the inode.
    pub fn file_type<D: BlockDevice, A: BlockBufferAllocator>(&self, fs: &mut EfsFileSystem<D, A>) -> (r: Result<FileType, FsError>)
        requires
            self.wf(),
            old(fs).wf(),
        ensures
            fs_same_layout(*old(fs), *final(fs)),
            extends(old(fs).cache.view(), final(fs).cache.view()),
            r matches Ok(t) ==> t == spec_file_type(self.raw(final(fs).cache.view())) && stored_inode(
                final(fs).cache.view(),
                self.blk_no,
                self.blk_offset as int,
                self.raw(final(fs).cache.view()),
            ),
            r matches Err(e) ==> e.kind == FsErrorKind::OutOfMemory || e.kind == FsErrorKind::IOError,
            old(fs).cache.view().dom().contains(self.blk_no) ==> r is Ok,
    {
        match self.read_raw_inode(fs) {
            Ok(n) => Ok(n.file_type()),
            Err(e) => Err(e),
        }
    }

    /// Reads the content at `offset` into `dst`, whatever the inode's type
    /// (see `RawINode::read`).
    pub fn raw_read<D: BlockDevice, A: BlockBufferAllocator>(
        &self,
        fs: &mut EfsFileSystem<D, A>,
        offset: u64,
        dst: &mut [u8],
    ) -> (r: Result<u64, FsError>)
        requires
            self.wf(),
            old(fs).wf(),
        ensures
            fs_same_layout(*old(fs), *final(fs)),
            extends(old(fs).cache.view(), final(fs).cache.view()),
            final(dst)@.len() == old(dst)@.len(),
            r matches Ok(k) ==> ({
                let n = self.raw(final(fs).cache.view());
                &&& stored_inode(final(fs).cache.view(), self.blk_no, self.blk_offset as int, n)
                &&& k == read_len(n.size as int, offset as int, old(dst)@.len() as int)
                &&& forall|q: int| offset <= q < offset + k ==> #[trigger] byte_known(final(fs).cache.view(), n, q)
                &&& forall|p: int| 0 <= p < k ==> #[trigger] final(dst)@[p] == file_byte(final(fs).cache.view(), n, offset + p)
                &&& forall|p: int| k <= p < old(dst)@.len() ==> #[trigger] final(dst)@[p] == old(dst)@[p]
            }),
            r matches Err(e) ==> e.kind == FsErrorKind::InvalidArgument || e.kind
                == FsErrorKind::InvalidData || e.kind == FsErrorKind::FileTooLarge || e.kind
                == FsErrorKind::OutOfMemory || e.kind == FsErrorKind::IOError,
            read_ready(*old(fs), *self, offset as int, old(dst)@.len() as int) ==> r is Ok,
            stored_inode(old(fs).cache.view(), self.blk_no, self.blk_offset as int, self.raw(old(fs).cache.view()))
                && offset > self.raw(old(fs).cache.view()).size ==> (r matches Err(e) && e.kind
                == FsErrorKind::InvalidArgument) && final(dst)@ == old(dst)@,
    {
        let ghost vs = fs.cache.view();
        let n = match self.read_raw_inode(fs) {
            Ok(n) => n,
            Err(e) => {
                return Err(e);
            },
        };
        let ghost v0 = fs.cache.view();
        proof {
            if stored_inode(vs, self.blk_no, self.blk_offset as int, self.raw(vs)) {
                lemma_stored_extends(vs, v0, self.blk_no, self.blk_offset as int, self.raw(vs));
            }
            if read_ready(*old(fs), *self, offset as int, dst@.len() as int) {
                lemma_stored_extends(vs, v0, self.blk_no, self.blk_offset as int, self.raw(vs));
                lemma_ready_extends(vs, v0, n, offset as int, read_len(n.size as int, offset as int, dst@.len() as int));
            }
        }
        let r = n.read(fs, offset, dst);
        proof {
            lemma_stored_extends(v0, fs.cache.view(), self.blk_no, self.blk_offset as int, n);
        }
        r
    }

    /// Writes `src` into the content at `offset`, whatever the inode's
    /// type (see `RawINode::write`); the record is updated even when the
    /// write stops on an error.
    pub fn raw_write<D: BlockDevice, A: BlockBufferAllocator>(
        &self,
        fs: &mut EfsFileSystem<D, A>,
        offset: u64,
        src: &[u8],
    ) -> (r: Result<u64, FsError>)
        requires
            self.wf(),
            old(fs).wf(),
        ensures
            fs_same_layout(*old(fs), *final(fs)),
            r matches Ok(k) ==> k == write_len(offset as int, src@.len() as int) && stored_inode(
                final(fs).cache.view(),
                self.blk_no,
                self.blk_offset as int,
                self.raw(final(fs).cache.view()),
            ) && self.raw(final(fs).cache.view()).size >= offset + k,
            old(fs).cache.view().dom().contains(self.blk_no) && stored_inode(
                old(fs).cache.view(),
                self.blk_no,
                self.blk_offset as int,
                self.raw(old(fs).cache.view()),
            ) ==> ({
                let n0 = self.raw(old(fs).cache.view());
                let n1 = self.raw(final(fs).cache.view());
                &&& r matches Ok(k) ==> n1.size == (if offset + k > n0.size {
                    offset + k
                } else {
                    n0.size as int
                }) && same_meta(n0, n1)
                &&& offset > n0.size ==> (r matches Err(e) && e.kind == FsErrorKind::InvalidArgument)
                &&& offset <= n0.size && spec_file_type(n0) == FileType::Unknown ==> (r matches Err(e)
                    && e.kind == FsErrorKind::InvalidData && opt_str_view(e.msg) == Some(write_unknown_msg()))
                &&& offset <= n0.size && spec_file_type(n0) == FileType::Device ==> (r matches Err(e)
                    && e.kind == FsErrorKind::InvalidData && opt_str_view(e.msg) == Some(write_device_msg()))
            }),
            r matches Err(e) ==> e.kind == FsErrorKind::InvalidArgument || e.kind
                == FsErrorKind::InvalidData || e.kind == FsErrorKind::FileTooLarge || e.kind
                == FsErrorKind::NoSpaceLeft || e.kind == FsErrorKind::OutOfMemory || e.kind
                == FsErrorKind::IOError,
            write_fits(*old(fs), *self, offset as int, src@.len() as int) ==> (r matches Ok(k) ==> holds_prefix(
                final(fs).cache.view(),
                self.raw(final(fs).cache.view()),
                offset as int,
                src@,
                k as int,
            ) && write_ready(*final(fs), self.raw(final(fs).cache.view()), offset as int, src@.len() as int)
                && others_kept(old(fs).cache.view(), final(fs).cache.view(), old(fs).data_bitmap.start_blk_no, *self)
                && kept_outside(
                old(fs).cache.view(),
                final(fs).cache.view(),
                self.raw(old(fs).cache.view()),
                self.raw(final(fs).cache.view()),
                offset as int,
                k as int,
                offset as int / 4096,
                write_hi(offset as int, src@.len() as int),
            ) && others_untouched(
                old(fs).cache.view(),
                final(fs).cache.view(),
                self.raw(old(fs).cache.view()),
                old(fs).data_bitmap.start_blk_no,
                old(fs).data_start(),
                old(fs).superblock.data_blocks as int,
                offset as int / 4096,
                write_hi(offset as int, src@.len() as int),
            ) && ptrs_kept(
                old(fs).cache.view(),
                self.raw(old(fs).cache.view()),
                final(fs).cache.view(),
                self.raw(final(fs).cache.view()),
                offset as int / 4096,
                write_hi(offset as int, src@.len() as int),
            ) && marks_kept(
                old(fs).cache.view(),
                final(fs).cache.view(),
                old(fs).data_bitmap.start_blk_no,
                old(fs).data_start(),
                old(fs).superblock.data_blocks as int,
            ) && fresh_blocks(
                old(fs).cache.view(),
                self.raw(old(fs).cache.view()),
                final(fs).cache.view(),
                self.raw(final(fs).cache.view()),
                old(fs).data_bitmap.start_blk_no,
                old(fs).data_start(),
                old(fs).superblock.data_blocks as int,
                offset as int / 4096,
                write_hi(offset as int, src@.len() as int),
            )),
            write_fits(*old(fs), *self, offset as int, src@.len() as int) && offset <= self.raw(old(fs).cache.view()).size
                && spec_file_type(self.raw(old(fs).cache.view())) != FileType::Unknown && spec_file_type(
                self.raw(old(fs).cache.view()),
            ) != FileType::Device && blocks_in_place(
                old(fs).cache.view(),
                self.raw(old(fs).cache.view()),
                offset as int / 4096,
                write_hi(offset as int, src@.len() as int),
            ) ==> r is Ok,
    {
        let ghost v_old = fs.cache.view();
        let mut n = match self.read_raw_inode(fs) {
            Ok(n) => n,
            Err(e) => {
                return Err(e);
            },
        };
        proof {
            if v_old.dom().contains(self.blk_no) && stored_inode(v_old, self.blk_no, self.blk_offset as int, self.raw(v_old)) {
                lemma_stored_extends(v_old, fs.cache.view(), self.blk_no, self.blk_offset as int, self.raw(v_old));
            }
        }
        let ghost n0 = n;
        let ghost ready = write_fits(*old(fs), *self, offset as int, src@.len() as int);
        let ghost v1 = fs.cache.view();
        proof {
            if ready {
                lemma_sound_frame(
                    v_old,
                    fs.cache.view(),
                    n,
                    fs.data_bitmap.start_blk_no,
                    fs.data_start(),
                    fs.superblock.data_blocks as int,
                    offset as int / 4096,
                    write_hi(offset as int, src@.len() as int),
                    None,
                );
            }
        }
        proof {
            if ready && offset <= n.size && blocks_in_place(v_old, n, offset as int / 4096, write_hi(offset as int, src@.len() as int)) {
                assert forall|j: int| offset as int / 4096 <= j < write_hi(offset as int, src@.len() as int) implies #[trigger] file_blk(
                    fs.cache.view(),
                    n,
                    j,
                ) != 0 && fs.cache.view().dom().contains(file_blk(fs.cache.view(), n, j)) by {
                    assert(file_blk(v_old, n, j) != 0);
                }
            }
        }
        let res = n.write(fs, offset, src);
        let ghost vw = fs.cache.view();
        match self.write_raw_inode(fs, n) {
            Ok(()) => {},
            Err(e) => {
                return Err(e);
            },
        }
        proof {
            if ready && res is Ok {
                let k = res->Ok_0;
                let start = fs.data_bitmap.start_blk_no;
                let hi = write_hi(offset as int, src@.len() as int);
                lemma_sound_frame(
                    vw,
                    fs.cache.view(),
                    n,
                    start,
                    fs.data_start(),
                    fs.superblock.data_blocks as int,
                    offset as int / 4096,
                    hi,
                    Some(self.blk_no),
                );
                old(fs).cache.lemma_view_block_sized();
                assert forall|cb: u64, co: int, m: RawINode|
                    cb < start && 0 <= co && co + 132 <= 4096 && records_apart(cb, co, self.blk_no, self.blk_offset as int)
                        && stored_inode(v_old, cb, co, m) implies #[trigger] stored_inode(fs.cache.view(), cb, co, m) by {
                    assert(v1[cb] == v_old[cb]);
                    assert(vw[cb] == v1[cb]);
                    if cb == self.blk_no {
                        lemma_splice_outside(
                            vw[cb],
                            self.blk_offset as int,
                            fs.cache.view()[cb].subrange(self.blk_offset as int, self.blk_offset + RAW_INODE_SIZE),
                            co,
                            132,
                        );
                    }
                }
                lemma_kept_frame(
                    v1,
                    self.raw(v_old),
                    vw,
                    n,
                    fs.cache.view(),
                    start,
                    fs.data_start(),
                    fs.superblock.data_blocks as int,
                    offset as int,
                    k as int,
                    offset as int / 4096,
                    hi,
                    self.blk_no,
                );
                lemma_kept_extends(
                    v_old,
                    v1,
                    fs.cache.view(),
                    self.raw(v_old),
                    n,
                    offset as int,
                    k as int,
                    offset as int / 4096,
                    hi,
                );
                lemma_untouched_frame(
                    v_old,
                    v1,
                    vw,
                    fs.cache.view(),
                    self.raw(v_old),
                    start,
                    fs.data_start(),
                    fs.superblock.data_blocks as int,
                    offset as int / 4096,
                    hi,
                    Some(self.blk_no),
                );
                lemma_fresh_frame(
                    v_old,
                    v1,
                    self.raw(v_old),
                    vw,
                    n,
                    fs.cache.view(),
                    start,
                    fs.data_start(),
                    fs.superblock.data_blocks as int,
                    offset as int / 4096,
                    hi,
                    Some(self.blk_no),
                );
                lemma_prefix_frame(
                    vw,
                    fs.cache.view(),
                    n,
                    fs.data_bitmap.start_blk_no,
                    fs.data_start(),
                    fs.superblock.data_blocks as int,
                    write_hi(offset as int, src@.len() as int),
                    offset as int,
                    src@,
                    k as int,
                    self.blk_no,
                );
            }
        }
        res
    }

    /// Shrinks the content to `new_size` bytes, whatever the inode's type;
    /// growing is refused with `InvalidArgument`.
    pub fn raw_truncate<D: BlockDevice, A: BlockBufferAllocator>(
        &self,
        fs: &mut EfsFileSystem<D, A>,
        new_size: u64,
    ) -> (r: Result<(), FsError>)
        requires
            self.wf(),
            old(fs).wf(),
        ensures
            fs_same_layout(*old(fs), *final(fs)),
            r is Ok ==> stored_inode(
                final(fs).cache.view(),
                self.blk_no,
                self.blk_offset as int,
                self.raw(final(fs).cache.view()),
            ) && self.raw(final(fs).cache.view()).size == new_size,
            old(fs).cache.view().dom().contains(self.blk_no) && stored_inode(
                old(fs).cache.view(),
                self.blk_no,
                self.blk_offset as int,
                self.raw(old(fs).cache.view()),
            ) ==> ({
                let n0 = self.raw(old(fs).cache.view());
                &&& new_size > n0.size ==> (r matches Err(e) && e.kind == FsErrorKind::InvalidArgument
                    && opt_str_view(e.msg) == Some(grow_msg()))
                &&& r is Ok ==> same_meta(n0, self.raw(final(fs).cache.view()))
            }),
            r matches Err(e) ==> e.kind == FsErrorKind::InvalidArgument || e.kind
                == FsErrorKind::FileTooLarge || e.kind == FsErrorKind::NoSpaceLeft || e.kind
                == FsErrorKind::OutOfMemory || e.kind == FsErrorKind::IOError,
            trunc_fits(*old(fs), *self, new_size as int) ==> others_kept(
                old(fs).cache.view(),
                final(fs).cache.view(),
                old(fs).data_bitmap.start_blk_no,
                *self,
            ),
            file_fits(*old(fs), *self) ==> (r is Ok ==> kept_outside(
                old(fs).cache.view(),
                final(fs).cache.view(),
                self.raw(old(fs).cache.view()),
                self.raw(final(fs).cache.view()),
                0,
                0,
                0,
                blocks_of(new_size as int),
            )),
            file_fits(*old(fs), *self) && tables_in_range(
                self.raw(old(fs).cache.view()),
                blocks_of(new_size as int),
                blocks_of(self.raw(old(fs).cache.view()).size as int),
            ) ==> (r is Ok ==> others_untouched(
                old(fs).cache.view(),
                final(fs).cache.view(),
                self.raw(old(fs).cache.view()),
                old(fs).data_bitmap.start_blk_no,
                old(fs).data_start(),
                old(fs).superblock.data_blocks as int,
                blocks_of(new_size as int),
                blocks_of(self.raw(old(fs).cache.view()).size as int),
            )),
            file_fits(*old(fs), *self) ==> (r is Ok ==> trunc_freed(
                old(fs).cache.view(),
                self.raw(old(fs).cache.view()),
                final(fs).cache.view(),
                self.raw(final(fs).cache.view()),
                old(fs).data_bitmap.start_blk_no,
                old(fs).data_start(),
                old(fs).superblock.data_blocks as int,
                new_size as int,
            )),
    {
        let ghost v_old = fs.cache.view();
        let mut n = match self.read_raw_inode(fs) {
            Ok(n) => n,
            Err(e) => {
                return Err(e);
            },
        };
        proof {
            if v_old.dom().contains(self.blk_no) && stored_inode(v_old, self.blk_no, self.blk_offset as int, self.raw(v_old)) {
                lemma_stored_extends(v_old, fs.cache.view(), self.blk_no, self.blk_offset as int, self.raw(v_old));
            }
        }
        if new_size > n.size() {
            return Err(
                FsError::with_fmt_args(FsErrorKind::InvalidArgument, "the new size is greater than the file size."),
            );
        }
        proof {
            if file_fits(*old(fs), *self) {
                let v1 = fs.cache.view();
                assert forall|q: int|
                    0 <= q / 4096 < blocks_of(new_size as int) && !(0 <= q < 0 + 0) && file_blk(v1, n, q / 4096) != 0
                        && byte_known(v1, n, q) implies #[trigger] byte_kept(v1, v1, n, n, q) by {}
                lemma_kept_extends(v_old, v1, v1, n, n, 0, 0, 0, blocks_of(new_size as int));
                lemma_sound_frame(
                    v_old,
                    v1,
                    n,
                    fs.data_bitmap.start_blk_no,
                    fs.data_start(),
                    fs.superblock.data_blocks as int,
                    0,
                    blocks_of(n.size as int),
                    None,
                );
            }
        }
        proof {
            lemma_untouched_refl(
                v_old,
                self.raw(v_old),
                fs.data_bitmap.start_blk_no,
                fs.data_start(),
                fs.superblock.data_blocks as int,
                blocks_of(new_size as int),
                blocks_of(self.raw(v_old).size as int),
            );
            lemma_untouched_extends(
                v_old,
                v_old,
                fs.cache.view(),
                self.raw(v_old),
                fs.data_bitmap.start_blk_no,
                fs.data_start(),
                fs.superblock.data_blocks as int,
                blocks_of(new_size as int),
                blocks_of(self.raw(v_old).size as int),
            );
        }
        if new_size == n.size() {
            return Ok(());
        }
        let ghost v1 = fs.cache.view();
        let res = n.truncate(fs, new_size);
        let ghost v2 = fs.cache.view();
        let rw = self.write_raw_inode(fs, n);
        proof {
            if trunc_fits(*old(fs), *self, new_size as int) {
                let start = fs.data_bitmap.start_blk_no;
                lemma_placed_frame(
                    v_old,
                    v1,
                    self.raw(v_old),
                    self.raw(v_old),
                    start,
                    fs.data_start(),
                    fs.superblock.data_blocks as int,
                    blocks_of(new_size as int),
                    blocks_of(self.raw(v_old).size as int),
                    None,
                );
                old(fs).cache.lemma_view_block_sized();
                assert forall|cb: u64, co: int, m: RawINode|
                    cb < start && 0 <= co && co + 132 <= 4096 && records_apart(cb, co, self.blk_no, self.blk_offset as int)
                        && stored_inode(v_old, cb, co, m) implies #[trigger] stored_inode(fs.cache.view(), cb, co, m) by {
                    assert(v1[cb] == v_old[cb]);
                    assert(v2[cb] == v1[cb]);
                    if rw is Ok && cb == self.blk_no {
                        lemma_splice_outside(
                            v2[cb],
                            self.blk_offset as int,
                            fs.cache.view()[cb].subrange(self.blk_offset as int, self.blk_offset + RAW_INODE_SIZE),
                            co,
                            132,
                        );
                    }
                }
            }
        }
        proof {
            if file_fits(*old(fs), *self) && res is Ok && rw is Ok {
                let k = blocks_of(new_size as int);
                assert(high_kept(v2, fs.cache.view(), fs.data_start()));
                lemma_kept_high_frame(v1, self.raw(v_old), v2, n, fs.cache.view(), fs.data_start(), 0, 0, 0, k);
                lemma_kept_extends(v_old, v1, fs.cache.view(), self.raw(v_old), n, 0, 0, 0, k);
                let ko = blocks_of(self.raw(v_old).size as int);
                if tables_in_range(self.raw(v_old), k, ko) {
                    lemma_sound_sub(
                        v_old,
                        self.raw(v_old),
                        fs.data_bitmap.start_blk_no,
                        fs.data_start(),
                        fs.superblock.data_blocks as int,
                        0,
                        ko,
                        k,
                        ko,
                    );
                    lemma_untouched_frame(
                        v_old,
                        v1,
                        v2,
                        fs.cache.view(),
                        self.raw(v_old),
                        fs.data_bitmap.start_blk_no,
                        fs.data_start(),
                        fs.superblock.data_blocks as int,
                        k,
                        ko,
                        Some(self.blk_no),
                    );
                }
            }
        }
        proof {
            if file_fits(*old(fs), *self) && res is Ok && rw is Ok {
                let start = fs.data_bitmap.start_blk_no;
                let ds = fs.data_start();
                let nblks = fs.superblock.data_blocks as int;
                assert forall|x: u64| #[trigger] v2.dom().contains(x) implies fs.cache.view().dom().contains(x) && (x
                    >= start ==> fs.cache.view()[x] == v2[x]) by {
                    if x >= start {
                        assert(x != self.blk_no);
                    }
                }
                lemma_trunc_frame(v1, self.raw(v_old), v2, n, fs.cache.view(), self.raw(fs.cache.view()), start, ds, nblks, new_size as int);
                lemma_trunc_rebase(v_old, v1, self.raw(v_old), fs.cache.view(), self.raw(fs.cache.view()), start, ds, nblks, new_size as int);
            }
        }
        match rw {
            Ok(()) => {},
            Err(e) => {
                return Err(e);
            },
        }
        res
    }

    /// Reads a regular file's content at `offset` into `dst`. Another type
    /// is refused: a directory with `IsADirectory`, a symlink or device with
    /// `Unsupported`, an unknown type with `InvalidData`.
    pub fn read<D: BlockDevice, A: BlockBufferAllocator>(
        &self,
        fs: &mut EfsFileSystem<D, A>,
        offset: u64,
        dst: &mut [u8],
    ) -> (r: Result<u64, FsError>)
        requires
            self.wf(),
            old(fs).wf(),
        ensures
            fs_same_layout(*old(fs), *final(fs)),
            extends(old(fs).cache.view(), final(fs).cache.view()),
            final(dst)@.len() == old(dst)@.len(),
            r is Ok ==> spec_file_type(self.raw(final(fs).cache.view())) == FileType::File,
            r matches Ok(k) ==> ({
                let n = self.raw(final(fs).cache.view());
                &&& stored_inode(final(fs).cache.view(), self.blk_no, self.blk_offset as int, n)
                &&& k == read_len(n.size as int, offset as int, old(dst)@.len() as int)
                &&& forall|p: int| 0 <= p < k ==> #[trigger] final(dst)@[p] == file_byte(final(fs).cache.view(), n, offset + p)
                &&& forall|p: int| k <= p < old(dst)@.len() ==> #[trigger] final(dst)@[p] == old(dst)@[p]
            }),
            r matches Err(e) && e.kind == FsErrorKind::IsADirectory ==> spec_file_type(
                self.raw(final(fs).cache.view()),
            ) == FileType::Directory,
            r matches Err(e) && e.kind == FsErrorKind::Unsupported ==> spec_file_type(
                self.raw(final(fs).cache.view()),
            ) == FileType::Symlink || spec_file_type(self.raw(final(fs).cache.view())) == FileType::Device,
            stored_inode(old(fs).cache.view(), self.blk_no, self.blk_offset as int, self.raw(old(fs).cache.view()))
                ==> ({
                let n0 = self.raw(old(fs).cache.view());
                &&& spec_file_type(n0) == FileType::Directory ==> (r matches Err(e) && e.kind
                    == FsErrorKind::IsADirectory) && final(dst)@ == old(dst)@
                &&& (spec_file_type(n0) == FileType::Symlink || spec_file_type(n0) == FileType::Device) ==> (r matches Err(
                    e,
                ) && e.kind == FsErrorKind::Unsupported) && final(dst)@ == old(dst)@
                &&& spec_file_type(n0) == FileType::Unknown ==> (r matches Err(e) && e.kind
                    == FsErrorKind::InvalidData) && final(dst)@ == old(dst)@
                &&& spec_file_type(n0) == FileType::File && offset > n0.size ==> (r matches Err(e) && e.kind
                    == FsErrorKind::InvalidArgument) && final(dst)@ == old(dst)@
                &&& spec_file_type(n0) == FileType::File && read_ready(
                    *old(fs),
                    *self,
                    offset as int,
                    old(dst)@.len() as int,
                ) ==> r is Ok
            }),
    {
        let ghost v0 = fs.cache.view();
        let ghost fs0 = *fs;
        let t = match self.file_type(fs) {
            Ok(t) => t,
            Err(e) => {
                return Err(e);
            },
        };
        proof {
            if stored_inode(v0, self.blk_no, self.blk_offset as int, self.raw(v0)) {
                lemma_stored_extends(v0, fs.cache.view(), self.blk_no, self.blk_offset as int, self.raw(v0));
                if read_ready(fs0, *self, offset as int, dst@.len() as int) {
                    let n0 = self.raw(v0);
                    lemma_ready_extends(v0, fs.cache.view(), n0, offset as int, read_len(n0.size as int, offset as int, dst@.len() as int));
                }
            }
        }
        match t {
            FileType::File => {
                let ghost v1 = fs.cache.view();
                let ghost n1 = self.raw(v1);
                let r = self.raw_read(fs, offset, dst);
                proof {
                    lemma_stored_extends(v1, fs.cache.view(), self.blk_no, self.blk_offset as int, n1);
                }
                r
            },
            FileType::Unknown => Err(FsError::from(FsErrorKind::InvalidData)),
            FileType::Directory => Err(FsError::from(FsErrorKind::IsADirectory)),
            FileType::Symlink => Err(FsError::from(FsErrorKind::Unsupported)),
            FileType::Device => Err(FsError::from(FsErrorKind::Unsupported)),
        }
    }

    /// Writes `src` into a regular file at `offset`. Another type is
    /// refused as `read` refuses it.
    pub fn write<D: BlockDevice, A: BlockBufferAllocator>(
        &self,
        fs: &mut EfsFileSystem<D, A>,
        offset: u64,
        src: &[u8],
    ) -> (r: Result<u64, FsError>)
        requires
            self.wf(),
            old(fs).wf(),
        ensures
            fs_same_layout(*old(fs), *final(fs)),
            r matches Ok(k) ==> k == write_len(offset as int, src@.len() as int) && spec_file_type(
                self.raw(final(fs).cache.view()),
            ) == FileType::File && self.raw(final(fs).cache.view()).size >= offset + k,
            r matches Err(e) && e.kind == FsErrorKind::IsADirectory ==> spec_file_type(
                self.raw(final(fs).cache.view()),
            ) == FileType::Directory,
            write_fits(*old(fs), *self, offset as int, src@.len() as int) ==> (r matches Ok(k) ==> holds_prefix(
                final(fs).cache.view(),
                self.raw(final(fs).cache.view()),
                offset as int,
                src@,
                k as int,
            ) && stored_inode(
                final(fs).cache.view(),
                self.blk_no,
                self.blk_offset as int,
                self.raw(final(fs).cache.view()),
            ) && self.raw(final(fs).cache.view()).size == (if offset + k > self.raw(old(fs).cache.view()).size {
                offset + k
            } else {
                self.raw(old(fs).cache.view()).size as int
            }) && same_meta(self.raw(old(fs).cache.view()), self.raw(final(fs).cache.view())) && write_ready(*final(fs), self.raw(final(fs).cache.view()), offset as int, src@.len() as int)
                && others_kept(old(fs).cache.view(), final(fs).cache.view(), old(fs).data_bitmap.start_blk_no, *self)
                && kept_outside(
                old(fs).cache.view(),
                final(fs).cache.view(),
                self.raw(old(fs).cache.view()),
                self.raw(final(fs).cache.view()),
                offset as int,
                k as int,
                offset as int / 4096,
                write_hi(offset as int, src@.len() as int),
            ) && others_untouched(
                old(fs).cache.view(),
                final(fs).cache.view(),
                self.raw(old(fs).cache.view()),
                old(fs).data_bitmap.start_blk_no,
                old(fs).data_start(),
                old(fs).superblock.data_blocks as int,
                offset as int / 4096,
                write_hi(offset as int, src@.len() as int),
            ) && marks_kept(
                old(fs).cache.view(),
                final(fs).cache.view(),
                old(fs).data_bitmap.start_blk_no,
                old(fs).data_start(),
                old(fs).superblock.data_blocks as int,
            ) && fresh_blocks(
                old(fs).cache.view(),
                self.raw(old(fs).cache.view()),
                final(fs).cache.view(),
                self.raw(final(fs).cache.view()),
                old(fs).data_bitmap.start_blk_no,
                old(fs).data_start(),
                old(fs).superblock.data_blocks as int,
                offset as int / 4096,
                write_hi(offset as int, src@.len() as int),
            )),
            stored_inode(old(fs).cache.view(), self.blk_no, self.blk_offset as int, self.raw(old(fs).cache.view()))
                ==> ({
                let n0 = self.raw(old(fs).cache.view());
                &&& spec_file_type(n0) == FileType::Directory ==> (r matches Err(e) && e.kind
                    == FsErrorKind::IsADirectory) && extends(old(fs).cache.view(), final(fs).cache.view())
                &&& (spec_file_type(n0) == FileType::Symlink || spec_file_type(n0) == FileType::Device) ==> (r matches Err(
                    e,
                ) && e.kind == FsErrorKind::Unsupported) && extends(old(fs).cache.view(), final(fs).cache.view())
                &&& spec_file_type(n0) == FileType::Unknown ==> (r matches Err(e) && e.kind
                    == FsErrorKind::InvalidData) && extends(old(fs).cache.view(), final(fs).cache.view())
                &&& spec_file_type(n0) == FileType::File && offset > n0.size ==> (r matches Err(e) && e.kind
                    == FsErrorKind::InvalidArgument)
                &&& spec_file_type(n0) == FileType::File && offset <= n0.size && write_fits(
                    *old(fs),
                    *self,
                    offset as int,
                    src@.len() as int,
                ) && blocks_in_place(
                    old(fs).cache.view(),
                    n0,
                    offset as int / 4096,
                    write_hi(offset as int, src@.len() as int),
                ) ==> r is Ok
            }),
    {
        let ghost v0 = fs.cache.view();
        let t = match self.file_type(fs) {
            Ok(t) => t,
            Err(e) => {
                return Err(e);
            },
        };
        proof {
            if stored_inode(v0, self.blk_no, self.blk_offset as int, self.raw(v0)) {
                lemma_stored_extends(v0, fs.cache.view(), self.blk_no, self.blk_offset as int, self.raw(v0));
            }
        }
        match t {
            FileType::File => {
                let ghost v1 = fs.cache.view();
                proof {
                    let n0 = self.raw(v0);
                    if write_fits(*old(fs), *self, offset as int, src@.len() as int) && blocks_in_place(
                        v0,
                        n0,
                        offset as int / 4096,
                        write_hi(offset as int, src@.len() as int),
                    ) {
                        assert forall|j: int|
                            offset as int / 4096 <= j < write_hi(offset as int, src@.len() as int) implies #[trigger] file_blk(
                            v1,
                            n0,
                            j,
                        ) != 0 && v1.dom().contains(file_blk(v1, n0, j)) by {
                            lemma_sound_frame(
                                v0,
                                v1,
                                n0,
                                fs.data_bitmap.start_blk_no,
                                fs.data_start(),
                                fs.superblock.data_blocks as int,
                                offset as int / 4096,
                                write_hi(offset as int, src@.len() as int),
                                None,
                            );
                            assert(file_blk(v0, n0, j) != 0);
                        }
                    }
                    if write_fits(*old(fs), *self, offset as int, src@.len() as int) {
                        lemma_stored_extends(v0, v1, self.blk_no, self.blk_offset as int, self.raw(v0));
                        lemma_sound_frame(
                            v0,
                            v1,
                            self.raw(v0),
                            fs.data_bitmap.start_blk_no,
                            fs.data_start(),
                            fs.superblock.data_blocks as int,
                            offset as int / 4096,
                            write_hi(offset as int, src@.len() as int),
                            None,
                        );
                    }
                }
                let r = self.raw_write(fs, offset, src);
                proof {
                    if write_fits(*old(fs), *self, offset as int, src@.len() as int) && r is Ok {
                        lemma_kept_extends(
                            v0,
                            v1,
                            fs.cache.view(),
                            self.raw(v0),
                            self.raw(fs.cache.view()),
                            offset as int,
                            r->Ok_0 as int,
                            offset as int / 4096,
                            write_hi(offset as int, src@.len() as int),
                        );
                        lemma_untouched_frame(
                            v0,
                            v1,
                            fs.cache.view(),
                            fs.cache.view(),
                            self.raw(v0),
                            fs.data_bitmap.start_blk_no,
                            fs.data_start(),
                            fs.superblock.data_blocks as int,
                            offset as int / 4096,
                            write_hi(offset as int, src@.len() as int),
                            None,
                        );
                        lemma_fresh_frame(
                            v0,
                            v1,
                            self.raw(v0),
                            fs.cache.view(),
                            self.raw(fs.cache.view()),
                            fs.cache.view(),
                            fs.data_bitmap.start_blk_no,
                            fs.data_start(),
                            fs.superblock.data_blocks as int,
                            offset as int / 4096,
                            write_hi(offset as int, src@.len() as int),
                            None,
                        );
                    }
                }
                r
            },
            FileType::Unknown => Err(FsError::from(FsErrorKind::InvalidData)),
            FileType::Directory => Err(FsError::from(FsErrorKind::IsADirectory)),
            FileType::Symlink => Err(FsError::from(FsErrorKind::Unsupported)),
            FileType::Device => Err(FsError::from(FsErrorKind::Unsupported)),
        }
    }

    /// Shrinks a regular file to `new_size` bytes and gives its old size.
    /// An unlinked inode is `NoSuchFileOrDirectory`; another type is
    /// refused as `read` refuses it.
    pub fn truncate<D: BlockDevice, A: BlockBufferAllocator>(
        &self,
        fs: &mut EfsFileSystem<D, A>,
        new_size: u64,
    ) -> (r: Result<u64, FsError>)
        requires
            self.wf(),
            old(fs).wf(),
        ensures
            fs_same_layout(*old(fs), *final(fs)),
            r is Ok ==> self.raw(final(fs).cache.view()).size == new_size && spec_file_type(
                self.raw(final(fs).cache.view()),
            ) == FileType::File,
            old(fs).cache.view().dom().contains(self.blk_no) && stored_inode(
                old(fs).cache.view(),
                self.blk_no,
                self.blk_offset as int,
                self.raw(old(fs).cache.view()),
            ) ==> ({
                let n0 = self.raw(old(fs).cache.view());
                &&& r matches Ok(s) ==> s == n0.size
                &&& n0.nlink == 0 ==> (r matches Err(e) && e.kind == FsErrorKind::NoSuchFileOrDirectory)
                &&& n0.nlink != 0 && spec_file_type(n0) == FileType::Directory ==> (r matches Err(e)
                    && e.kind == FsErrorKind::IsADirectory)
                &&& n0.nlink != 0 && (spec_file_type(n0) == FileType::Symlink || spec_file_type(n0)
                    == FileType::Device) ==> (r matches Err(e) && e.kind == FsErrorKind::Unsupported)
                &&& n0.nlink != 0 && spec_file_type(n0) == FileType::Unknown ==> (r matches Err(e)
                    && e.kind == FsErrorKind::InvalidData)
            }),
            file_fits(*old(fs), *self) ==> (r is Ok ==> kept_outside(
                old(fs).cache.view(),
                final(fs).cache.view(),
                self.raw(old(fs).cache.view()),
                self.raw(final(fs).cache.view()),
                0,
                0,
                0,
                blocks_of(new_size as int),
            )),
            file_fits(*old(fs), *self) && tables_in_range(
                self.raw(old(fs).cache.view()),
                blocks_of(new_size as int),
                blocks_of(self.raw(old(fs).cache.view()).size as int),
            ) ==> (r is Ok ==> others_untouched(
                old(fs).cache.view(),
                final(fs).cache.view(),
                self.raw(old(fs).cache.view()),
                old(fs).data_bitmap.start_blk_no,
                old(fs).data_start(),
                old(fs).superblock.data_blocks as int,
                blocks_of(new_size as int),
                blocks_of(self.raw(old(fs).cache.view()).size as int),
            )),
            file_fits(*old(fs), *self) ==> (r is Ok ==> trunc_freed(
                old(fs).cache.view(),
                self.raw(old(fs).cache.view()),
                final(fs).cache.view(),
                self.raw(final(fs).cache.view()),
                old(fs).data_bitmap.start_blk_no,
                old(fs).data_start(),
                old(fs).superblock.data_blocks as int,
                new_size as int,
            )),
    {
        let ghost v_old = fs.cache.view();
        let ghost fits = file_fits(*fs, *self);
        let raw_inode = match self.read_raw_inode(fs) {
            Ok(n) => n,
            Err(e) => {
                return Err(e);
            },
        };
        proof {
            if v_old.dom().contains(self.blk_no) && stored_inode(v_old, self.blk_no, self.blk_offset as int, self.raw(v_old)) {
                lemma_stored_extends(v_old, fs.cache.view(), self.blk_no, self.blk_offset as int, self.raw(v_old));
            }
        }
        if raw_inode.nlink() == 0 {
            return Err(FsError::from(FsErrorKind::NoSuchFileOrDirectory));
        }
        match raw_inode.file_type() {
            FileType::File => {
                let old_sz = raw_inode.size();
                let ghost v1 = fs.cache.view();
                proof {
                    if fits {
                        lemma_sound_frame(
                            v_old,
                            v1,
                            raw_inode,
                            fs.data_bitmap.start_blk_no,
                            fs.data_start(),
                            fs.superblock.data_blocks as int,
                            0,
                            blocks_of(raw_inode.size as int),
                            None,
                        );
                    }
                }
                match self.raw_truncate(fs, new_size) {
                    Ok(()) => {
                        proof {
                            if fits {
                                lemma_kept_extends(
                                    v_old,
                                    v1,
                                    fs.cache.view(),
                                    raw_inode,
                                    self.raw(fs.cache.view()),
                                    0,
                                    0,
                                    0,
                                    blocks_of(new_size as int),
                                );
                                let k = blocks_of(new_size as int);
                                let ko = blocks_of(raw_inode.size as int);
                                if tables_in_range(raw_inode, k, ko) && new_size <= raw_inode.size {
                                    lemma_sound_sub(
                                        v_old,
                                        raw_inode,
                                        fs.data_bitmap.start_blk_no,
                                        fs.data_start(),
                                        fs.superblock.data_blocks as int,
                                        0,
                                        ko,
                                        k,
                                        ko,
                                    );
                                    lemma_untouched_frame(
                                        v_old,
                                        v1,
                                        fs.cache.view(),
                                        fs.cache.view(),
                                        raw_inode,
                                        fs.data_bitmap.start_blk_no,
                                        fs.data_start(),
                                        fs.superblock.data_blocks as int,
                                        k,
                                        ko,
                                        None,
                                    );
                                }
                            }
                        }
                        Ok(old_sz)
                    },
                    Err(e) => Err(e),
                }
            },
            FileType::Symlink => Err(FsError::from(FsErrorKind::Unsupported)),
            FileType::Device => Err(FsError::from(FsErrorKind::Unsupported)),
            FileType::Directory => Err(FsError::from(FsErrorKind::IsADirectory)),
            FileType::Unknown => Err(FsError::from(FsErrorKind::InvalidData)),
        }
    }

    /// Sets up an unused inode as a fresh inode of type `typ` on device
    /// `dev_no`; an inode in use is `FileSystemCorruption`.
    pub fn init_inode<D: BlockDevice, A: BlockBufferAllocator>(
        &self,
        fs: &mut EfsFileSystem<D, A>,
        typ: FileType,
        dev_no: u32,
    ) -> (r: Result<(), FsError>)
        requires
            self.wf(),
            old(fs).wf(),
            typ != FileType::Unknown,
        ensures
            fs_same_layout(*old(fs), *final(fs)),
            r is Ok ==> is_fresh(self.raw(final(fs).cache.view()), typ, dev_no) && stored_inode(
                final(fs).cache.view(),
                self.blk_no,
                self.blk_offset as int,
                self.raw(final(fs).cache.view()),
            ),
            old(fs).cache.view().dom().contains(self.blk_no) && stored_inode(
                old(fs).cache.view(),
                self.blk_no,
                self.blk_offset as int,
                self.raw(old(fs).cache.view()),
            ) ==> (r is Ok <==> spec_file_type(self.raw(old(fs).cache.view())) == FileType::Unknown),
            r matches Err(e) ==> (e.kind == FsErrorKind::FileSystemCorruption && opt_str_view(e.msg)
                == Some(init_in_use_msg())) || e.kind == FsErrorKind::OutOfMemory || e.kind
                == FsErrorKind::IOError,
            r is Ok ==> only_record(old(fs).cache.view(), final(fs).cache.view(), *self),
    {
        let ghost v_old = fs.cache.view();
        let cur = match self.read_raw_inode(fs) {
            Ok(n) => n,
            Err(e) => {
                return Err(e);
            },
        };
        proof {
            if v_old.dom().contains(self.blk_no) && stored_inode(v_old, self.blk_no, self.blk_offset as int, self.raw(v_old)) {
                lemma_stored_extends(v_old, fs.cache.view(), self.blk_no, self.blk_offset as int, self.raw(v_old));
            }
        }
        if cur.file_type() != FileType::Unknown {
            return Err(
                FsError::with_fmt_args(
                    FsErrorKind::FileSystemCorruption,
                    "Caller attempts to init a available raw inode.",
                ),
            );
        }
        let mut n = RawINode::default();
        n.set_file_type(typ);
        n.dev_no = dev_no;
        let ghost v1 = fs.cache.view();
        let r = self.write_raw_inode(fs, n);
        proof {
            if r is Ok {
                assert(v1.dom().contains(self.blk_no));
            }
        }
        r
    }
}

} // verus!
