//! Block devices: what the file system reads its blocks from and writes
//! them to.

use vstd::prelude::*;

verus! {

/// A device of fixed-size blocks, numbered from 0. Implemented by the
/// users of the file system.
pub trait BlockDevice {
    /// Reads block `blk_no` into `buf`.
    fn read_block(&self, blk_no: u64, buf: &mut [u8]) -> (r: Result<(), &'static str>)
        ensures
            final(buf)@.len() == old(buf)@.len(),
    ;

    /// Writes `buf` as block `blk_no`.
    fn write_block(&self, blk_no: u64, buf: &[u8]) -> Result<(), &'static str>;
}

} // verus!
