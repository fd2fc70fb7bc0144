//! How a file system is set up: its limits and its buffer allocator.

use vstd::prelude::*;
use crate::efs::buffer::{BlockBufferAllocator, DefaultBlockBufferAllocator};

verus! {

/// The settings of a file system.
pub struct FsConfig<A> {
    pub max_transactions: usize,
    pub max_cached_blocks: usize,
    pub block_buffer_allocator: A,
}

impl Default for FsConfig<DefaultBlockBufferAllocator> {
    fn default() -> (r: Self)
        ensures
            r.max_transactions == 8,
            r.max_cached_blocks == 128,
    {
        FsConfig {
            max_transactions: 8,
            max_cached_blocks: 128,
            block_buffer_allocator: DefaultBlockBufferAllocator {  },
        }
    }
}

impl FsConfig<DefaultBlockBufferAllocator> {
    /// The default settings: 8 transactions, 128 cached blocks, buffers
    /// from the heap.
    pub fn new() -> (r: Self)
        ensures
            r.max_transactions == 8,
            r.max_cached_blocks == 128,
    {
        FsConfig {
            max_transactions: 8,
            max_cached_blocks: 128,
            block_buffer_allocator: DefaultBlockBufferAllocator {  },
        }
    }
}

impl<A> FsConfig<A> {
    /// The same settings with `max_transactions` transactions.
    pub fn max_transactions(self, max_transactions: usize) -> (r: Self)
        ensures
            r.max_transactions == max_transactions,
            r.max_cached_blocks == self.max_cached_blocks,
            r.block_buffer_allocator == self.block_buffer_allocator,
    {
        FsConfig { max_transactions, ..self }
    }

    /// The same settings with at most `max_cached_blocks` cached blocks.
    pub fn max_cached_blocks(self, max_cached_blocks: usize) -> (r: Self)
        ensures
            r.max_transactions == self.max_transactions,
            r.max_cached_blocks == max_cached_blocks,
            r.block_buffer_allocator == self.block_buffer_allocator,
    {
        FsConfig { max_cached_blocks, ..self }
    }

    /// The same settings with buffers from `allocator`.
    pub fn block_buffer_allocator<B: BlockBufferAllocator>(self, allocator: B) -> (r: FsConfig<B>)
        ensures
            r.max_transactions == self.max_transactions,
            r.max_cached_blocks == self.max_cached_blocks,
            r.block_buffer_allocator == allocator,
    {
        FsConfig {
            max_transactions: self.max_transactions,
            max_cached_blocks: self.max_cached_blocks,
            block_buffer_allocator: allocator,
        }
    }
}

} // verus!
