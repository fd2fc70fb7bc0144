//! The in-memory copy of one block, and where such copies get their memory.

use vstd::prelude::*;
use crate::errors::{FsError, FsErrorKind, opt_str_view};
use crate::efs::consts::BLOCK_SIZE;
use crate::efs::dev::BlockDevice;

verus! {

/// Hands out zeroed block-sized buffers and takes them back.
pub trait BlockBufferAllocator {
    /// A buffer of one block, or `None` when no memory is left.
    fn allocate(&self) -> (r: Option<Vec<u8>>)
        ensures
            r matches Some(v) ==> v@.len() == BLOCK_SIZE,
    ;

    /// Takes back a buffer that `allocate` gave.
    fn deallocate(&self, buf: Vec<u8>);
}

/// The allocator that takes its buffers from the heap.
#[derive(Debug, Clone, Copy)]
pub struct DefaultBlockBufferAllocator {}

impl BlockBufferAllocator for DefaultBlockBufferAllocator {
    fn allocate(&self) -> (r: Option<Vec<u8>>)
        ensures
            r matches Some(v) && v@ == Seq::new(BLOCK_SIZE as nat, |i: int| 0u8),
    {
        let v: Vec<u8> = vec![0u8; BLOCK_SIZE];
        proof {
            assert(v@ =~= Seq::new(BLOCK_SIZE as nat, |i: int| 0u8));
        }
        Some(v)
    }

    fn deallocate(&self, buf: Vec<u8>) {
    }
}

/// A block held in memory: its number, its bytes, and whether they
/// differ from what the device holds.
pub struct SharedBlockBuffer {
    pub data: Vec<u8>,
    pub is_dirty: bool,
    pub blk_no: u64,
}

impl SharedBlockBuffer {
    /// Reads block `blk_no` from `dev` into a buffer from `allocator`.
    /// Fails with `OutOfMemory` when the allocator has no buffer, and with
    /// `IOError` and the device's message when the device fails.
    pub fn new<D: BlockDevice, A: BlockBufferAllocator>(dev: &D, allocator: &A, blk_no: u64) -> (r:
        Result<Self, FsError>)
        ensures
            r matches Ok(b) ==> b.blk_no == blk_no && !b.is_dirty && b.data@.len() == BLOCK_SIZE,
            r matches Err(e) ==> e.kind == FsErrorKind::OutOfMemory || e.kind
                == FsErrorKind::IOError,
    {
        match allocator.allocate() {
            None => Err(FsError::from(FsErrorKind::OutOfMemory)),
            Some(mut data) => {
                match dev.read_block(blk_no, data.as_mut_slice()) {
                    Ok(()) => Ok(SharedBlockBuffer { data, is_dirty: false, blk_no }),
                    Err(msg) => {
                        allocator.deallocate(data);
                        Err(FsError::with_fmt_args(FsErrorKind::IOError, msg))
                    },
                }
            },
        }
    }

    /// Gives up the buffer's bytes, leaving it empty and clean.
    pub fn take_data(&mut self) -> (r: Vec<u8>)
        ensures
            r@ == old(self).data@,
            final(self).data@.len() == 0,
            !final(self).is_dirty,
            final(self).blk_no == old(self).blk_no,
    {
        let mut data: Vec<u8> = Vec::new();
        std::mem::swap(&mut data, &mut self.data);
        self.is_dirty = false;
        data
    }

    /// Writes the block back to `dev` when it is dirty; it is clean after a
    /// success. A device failure gives `IOError` with the device's message.
    pub fn sync<D: BlockDevice>(&mut self, dev: &D) -> (r: Result<(), FsError>)
        ensures
            final(self).data == old(self).data,
            final(self).blk_no == old(self).blk_no,
            r is Ok ==> !final(self).is_dirty,
            !old(self).is_dirty ==> r is Ok && !final(self).is_dirty,
            r matches Err(e) ==> e.kind == FsErrorKind::IOError && final(self).is_dirty,
    {
        if self.is_dirty {
            match dev.write_block(self.blk_no, self.data.as_slice()) {
                Ok(()) => {
                    self.is_dirty = false;
                },
                Err(msg) => {
                    return Err(FsError::with_fmt_args(FsErrorKind::IOError, msg));
                },
            }
        }
        Ok(())
    }

    /// The bytes of the block.
    pub fn data(&self) -> (r: &[u8])
        ensures
            r@ == self.data@,
    {
        self.data.as_slice()
    }

    /// The `len` bytes at `offset`.
    pub fn as_slice_at(&self, offset: usize, len: usize) -> (r: &[u8])
        requires
            offset + len <= self.data@.len(),
        ensures
            r@ == self.data@.subrange(offset as int, offset + len),
    {
        let whole = self.data.as_slice();
        assert(whole@.len() == self.data@.len());
        let n = whole.len();
        let end = offset + len;
        &whole[offset..end]
    }

    /// The `len` bytes at `offset`, to be written; the block is dirty
    /// from now on.
    pub fn as_slice_mut_at(&mut self, offset: usize, len: usize) -> (r: &mut [u8])
        requires
            offset + len <= old(self).data@.len(),
        ensures
            r@ == old(self).data@.subrange(offset as int, offset + len),
            final(self).is_dirty,
            final(self).blk_no == old(self).blk_no,
            final(self).data@ == old(self).data@.subrange(0, offset as int) + final(r)@ + old(
                self,
            ).data@.subrange(offset + len, old(self).data@.len() as int),
    {
        self.is_dirty = true;
        let whole = self.data.as_mut_slice();
        let (_, rest) = whole.split_at_mut(offset);
        let (mid, _) = rest.split_at_mut(len);
        mid
    }

    /// Copies `src` into the block at `offset`; the block is dirty from
    /// now on.
    pub fn write_at(&mut self, offset: usize, src: &[u8])
        requires
            offset + src@.len() <= old(self).data@.len(),
        ensures
            final(self).is_dirty,
            final(self).blk_no == old(self).blk_no,
            final(self).data@ == old(self).data@.subrange(0, offset as int) + src@ + old(
                self,
            ).data@.subrange(offset + src@.len(), old(self).data@.len() as int),
    {
        self.is_dirty = true;
        let n = self.data.len();
        let mut i: usize = 0;
        while i < src.len()
            invariant
                n == self.data@.len(),
                offset + src@.len() <= self.data@.len(),
                self.data@.len() == old(self).data@.len(),
                i <= src@.len(),
                forall|k: int| 0 <= k < offset ==> self.data@[k] == old(self).data@[k],
                forall|k: int| 0 <= k < i ==> self.data@[offset + k] == src@[k],
                forall|k: int|
                    offset + src@.len() <= k < self.data@.len() ==> self.data@[k] == old(
                        self,
                    ).data@[k],
                self.is_dirty,
                self.blk_no == old(self).blk_no,
            decreases src@.len() - i,
        {
            self.data.set(offset + i, src[i]);
            i += 1;
        }
        proof {
            assert(self.data@ =~= old(self).data@.subrange(0, offset as int) + src@ + old(
                self,
            ).data@.subrange(offset + src@.len(), old(self).data@.len() as int));
        }
    }
}

} // verus!
