//! The block cache: the blocks read so far, kept in memory and written back
//! on demand. A least-recently-used map finds the buffer of a block.

use vstd::prelude::*;
use lru::LruCache;
use crate::errors::{FsError, FsErrorKind};
use crate::efs::consts::BLOCK_SIZE;
use crate::efs::dev::BlockDevice;
use crate::efs::buffer::{BlockBufferAllocator, SharedBlockBuffer};
use crate::le::{le_value, le_bytes, read_le, write_le};

verus! {

#[verifier::external_type_specification]
#[verifier::external_body]
#[verifier::reject_recursive_types(K)]
#[verifier::reject_recursive_types(V)]
#[verifier::reject_recursive_types(S)]
pub struct ExLruCache<K, V, S>(LruCache<K, V, S>);

#[verifier::external_type_specification]
#[verifier::external_body]
pub struct ExDefaultHashBuilder(hashbrown::DefaultHashBuilder);

/// What a cache map holds: for each block number, the slot of its buffer.
pub uninterp spec fn lru_entries(c: LruCache<u64, usize>) -> Map<u64, usize>;

/// The number of entries a cache map holds at most.
pub uninterp spec fn lru_capacity(c: LruCache<u64, usize>) -> nat;

/// What every cache map keeps: finitely many entries, no more than its
/// capacity, and a capacity of at least one.
pub open spec fn lru_ok(c: LruCache<u64, usize>) -> bool {
    &&& lru_entries(c).dom().finite()
    &&& lru_entries(c).len() <= lru_capacity(c)
    &&& 0 < lru_capacity(c) <= usize::MAX
}

/// `LruCache::unbounded`: an empty map whose capacity is the largest
/// `usize`, so that it never evicts on its own.
#[verifier::external_body]
fn lru_unbounded() -> (r: LruCache<u64, usize>)
    ensures
        lru_entries(r).dom().is_empty(),
        lru_capacity(r) == usize::MAX,
        lru_ok(r),
{
    LruCache::unbounded()
}

/// `LruCache::get`: the slot of `k` when the map holds it. Only the order
/// of recent use changes, not the entries.
#[verifier::external_body]
fn lru_get(c: &mut LruCache<u64, usize>, k: u64) -> (r: Option<usize>)
    requires
        lru_ok(*old(c)),
    ensures
        lru_entries(*final(c)) == lru_entries(*old(c)),
        lru_capacity(*final(c)) == lru_capacity(*old(c)),
        lru_ok(*final(c)),
        r == (if lru_entries(*old(c)).dom().contains(k) {
            Some(lru_entries(*old(c))[k])
        } else {
            None
        }),
{
    c.get(&k).copied()
}

/// `LruCache::peek`: the slot of `k` when the map holds it, without
/// touching the order of recent use.
#[verifier::external_body]
fn lru_peek(c: &LruCache<u64, usize>, k: u64) -> (r: Option<usize>)
    ensures
        r == (if lru_entries(*c).dom().contains(k) {
            Some(lru_entries(*c)[k])
        } else {
            None
        }),
{
    c.peek(&k).copied()
}

/// `LruCache::push`: maps `k` to `v`. An entry of `k` is replaced and
/// handed back; else, when the map is full, the least recently used entry
/// leaves and is handed back; else nothing is.
#[verifier::external_body]
fn lru_push(c: &mut LruCache<u64, usize>, k: u64, v: usize) -> (r: Option<(u64, usize)>)
    requires
        lru_ok(*old(c)),
    ensures
        lru_capacity(*final(c)) == lru_capacity(*old(c)),
        lru_ok(*final(c)),
        lru_entries(*old(c)).dom().contains(k) ==> r == Some((k, lru_entries(*old(c))[k]))
            && lru_entries(*final(c)) == lru_entries(*old(c)).insert(k, v),
        !lru_entries(*old(c)).dom().contains(k) && lru_entries(*old(c)).len() < lru_capacity(
            *old(c),
        ) ==> r is None && lru_entries(*final(c)) == lru_entries(*old(c)).insert(k, v),
        !lru_entries(*old(c)).dom().contains(k) && lru_entries(*old(c)).len() >= lru_capacity(
            *old(c),
        ) ==> (r matches Some((ek, ev)) && lru_entries(*old(c)).dom().contains(ek)
            && lru_entries(*old(c))[ek] == ev && lru_entries(*final(c)) == lru_entries(
            *old(c),
        ).remove(ek).insert(k, v)),
{
    c.push(k, v)
}

/// `LruCache::len`: the number of entries.
#[verifier::external_body]
fn lru_len(c: &LruCache<u64, usize>) -> (r: usize)
    requires
        lru_ok(*c),
    ensures
        r == lru_entries(*c).len(),
{
    c.len()
}

/// `LruCache::resize` with a capacity of `cap`: the least recently used
/// entries leave until at most `cap` are left.
#[verifier::external_body]
fn lru_resize(c: &mut LruCache<u64, usize>, cap: usize)
    requires
        lru_ok(*old(c)),
        cap > 0,
    ensures
        lru_capacity(*final(c)) == cap,
        lru_ok(*final(c)),
        lru_entries(*final(c)).submap_of(lru_entries(*old(c))),
        lru_entries(*final(c)).len() == (if lru_entries(*old(c)).len() <= cap {
            lru_entries(*old(c)).len()
        } else {
            cap as nat
        }),
{
    c.resize(core::num::NonZeroUsize::new(cap).unwrap())
}

/// A cache of blocks over device `D`, with buffers from allocator `A`.
pub struct BlockCacheManager<D, A> {
    dev: D,
    cache: LruCache<u64, usize>,
    buffers: Vec<SharedBlockBuffer>,
    allocator: A,
}

/// The bytes of a block with `src` in place of its bytes at `offset`.
pub open spec fn splice(block: Seq<u8>, offset: int, src: Seq<u8>) -> Seq<u8> {
    block.subrange(0, offset) + src + block.subrange(offset + src.len(), block.len() as int)
}

/// `new` is `old` after `data` was written into block `blk` at `offset`:
/// the block is in the cache, holds `data` there and, when it was cached
/// before, its other bytes stay; every other block stays.
pub open spec fn written(
    old: Map<u64, Seq<u8>>,
    new: Map<u64, Seq<u8>>,
    blk: u64,
    offset: int,
    data: Seq<u8>,
) -> bool {
    &&& new.dom() == old.dom().insert(blk)
    &&& forall|k: u64| #[trigger] old.dom().contains(k) && k != blk ==> new[k] == old[k]
    &&& new[blk].len() == BLOCK_SIZE
    &&& new[blk].subrange(offset, offset + data.len()) == data
    &&& old.dom().contains(blk) ==> new[blk] == splice(old[blk], offset, data)
}

/// Every block that `old` holds, `new` holds with the same bytes.
pub open spec fn extends(old: Map<u64, Seq<u8>>, new: Map<u64, Seq<u8>>) -> bool {
    forall|k: u64| #[trigger] old.dom().contains(k) ==> new.dom().contains(k) && new[k] == old[k]
}

impl<D: BlockDevice, A: BlockBufferAllocator> BlockCacheManager<D, A> {
    /// The cache is consistent: each entry of the map names the slot of a
    /// block-sized buffer of that very block.
    pub closed spec fn wf(&self) -> bool {
        &&& lru_ok(self.cache)
        &&& forall|k: u64| #[trigger]
            lru_entries(self.cache).dom().contains(k) ==> lru_entries(self.cache)[k]
                < self.buffers@.len() && self.buffers@[lru_entries(self.cache)[k] as int].blk_no
                == k && self.buffers@[lru_entries(self.cache)[k] as int].data@.len() == BLOCK_SIZE
        &&& lru_entries(self.cache).len() <= self.buffers@.len()
    }

    /// The slot of the buffer of cached block `blk_no`.
    pub closed spec fn slot(&self, blk_no: u64) -> usize {
        lru_entries(self.cache)[blk_no]
    }

    /// The number of buffer slots.
    pub closed spec fn nslots(&self) -> nat {
        self.buffers@.len()
    }

    /// Whether every cached block has been written back.
    pub closed spec fn all_clean(&self) -> bool {
        forall|k: u64| #[trigger]
            lru_entries(self.cache).dom().contains(k) ==> !self.buffers@[lru_entries(
                self.cache,
            )[k] as int].is_dirty
    }

    /// Block `k` has no change waiting to be written back: it is not
    /// cached, or its buffer is clean.
    pub closed spec fn block_clean(&self, k: u64) -> bool {
        lru_entries(self.cache).dom().contains(k) ==> !self.buffers@[lru_entries(self.cache)[k] as int].is_dirty
    }

    /// The device under the cache.
    pub closed spec fn device(&self) -> D {
        self.dev
    }

    /// The map never evicts on its own.
    pub closed spec fn unbounded(&self) -> bool {
        lru_capacity(self.cache) == usize::MAX
    }

    /// The blocks in the cache and their bytes as the cache holds them.
    pub closed spec fn view(&self) -> Map<u64, Seq<u8>> {
        Map::new(
            |k: u64| lru_entries(self.cache).dom().contains(k),
            |k: u64| self.buffers@[lru_entries(self.cache)[k] as int].data@,
        )
    }

    /// Every cached block is block-sized.
    pub proof fn lemma_view_block_sized(&self)
        requires
            self.wf(),
        ensures
            forall|k: u64| #[trigger] self.view().dom().contains(k) ==> self.view()[k].len() == BLOCK_SIZE,
    {
        assert forall|k: u64| #[trigger] self.view().dom().contains(k) implies self.view()[k].len()
            == BLOCK_SIZE by {
            let i = lru_entries(self.cache)[k] as int;
            assert(self.buffers@[i].data@.len() == BLOCK_SIZE);
        }
    }

    /// An empty cache over `dev` that never evicts on its own.
    pub fn new(dev: D, allocator: A) -> (r: Self)
        ensures
            r.wf(),
            r.unbounded(),
            r.view() == Map::<u64, Seq<u8>>::empty(),
            r.device() == dev,
    {
        let r = BlockCacheManager {
            dev,
            cache: lru_unbounded(),
            buffers: Vec::new(),
            allocator,
        };
        assert(r.view() =~= Map::<u64, Seq<u8>>::empty());
        r
    }

    /// The number of cached blocks.
    pub fn len(&self) -> (r: usize)
        requires
            self.wf(),
        ensures
            r == self.view().len(),
    {
        assert(self.view().dom() =~= lru_entries(self.cache).dom());
        lru_len(&self.cache)
    }

    /// Whether no block is cached.
    pub fn is_empty(&self) -> (r: bool)
        requires
            self.wf(),
        ensures
            r == (self.view().len() == 0),
    {
        self.len() == 0
    }

    /// The device under the cache.
    pub fn dev(&self) -> (r: &D)
        ensures
            *r == self.device(),
    {
        &self.dev
    }

    /// Keeps at most `s` blocks cached, the most recently used ones; the
    /// blocks that leave are written back when dirty.
    pub fn trim_to_size(&mut self, s: usize)
        requires
            old(self).wf(),
            s > 0,
        ensures
            final(self).wf(),
            final(self).view().submap_of(old(self).view()),
            final(self).view().len() == (if old(self).view().len() <= s {
                old(self).view().len()
            } else {
                s as nat
            }),
    {
        lru_resize(&mut self.cache, s);
        assert forall|k: u64| #[trigger] lru_entries(self.cache).dom().contains(k) implies lru_entries(self.cache)[k]
            < self.buffers@.len() && self.buffers@[lru_entries(self.cache)[k] as int].blk_no == k
            && self.buffers@[lru_entries(self.cache)[k] as int].data@.len() == BLOCK_SIZE by {
            assert(lru_entries(old(self).cache).dom().contains(k));
            assert(lru_entries(self.cache)[k] == lru_entries(old(self).cache)[k]);
        }
        assert(self.wf());
        assert(self.view().dom() =~= lru_entries(self.cache).dom());
        assert(old(self).view().dom() =~= lru_entries(old(self).cache).dom());
        assert(self.view().submap_of(old(self).view()));
        let ghost before = self.view();
        let mut i: usize = 0;
        while i < self.buffers.len()
            invariant
                self.wf(),
                self.view() == before,
                i <= self.buffers@.len(),
            decreases self.buffers@.len() - i,
        {
            let blk_no = self.buffers[i].blk_no;
            let still = lru_peek(&self.cache, blk_no);
            let kept = match still {
                Some(j) => j == i,
                None => false,
            };
            if !kept {
                let ghost pre = self.buffers@;
                let _ = self.buffers[i].sync(&self.dev);
                let data = self.buffers[i].take_data();
                self.allocator.deallocate(data);
                assert forall|k: u64| #[trigger] lru_entries(self.cache).dom().contains(k) implies lru_entries(self.cache)[k] != i by {
                    if lru_entries(self.cache)[k] == i {
                        assert(pre[i as int].blk_no == k);
                    }
                }
                assert(self.view() =~= before);
            }
            i += 1;
        }
    }

    /// The slot of the buffer that holds block `blk_no`, read from the
    /// device first when it is not cached. When the map is full, the least
    /// recently used block leaves it and is written back when dirty. Fails
    /// with `OutOfMemory` when no buffer can be had and with `IOError` when
    /// the device fails; the cache is then as it was.
    pub fn get_block(&mut self, blk_no: u64) -> (r: Result<usize, FsError>)
        requires
            old(self).wf(),
        ensures
            old(self).view().dom().contains(blk_no) ==> r is Ok,
            final(self).wf(),
            final(self).unbounded() == old(self).unbounded(),
            final(self).device() == old(self).device(),
            r matches Ok(i) ==> final(self).view().dom().contains(blk_no) && i == final(self).slot(
                blk_no,
            ) && i < final(self).nslots(),
            r matches Ok(i) && old(self).view().dom().contains(blk_no) ==> final(self).view()
                == old(self).view(),
            r is Ok && old(self).unbounded() ==> extends(old(self).view(), final(self).view())
                && final(self).view().dom() == old(self).view().dom().insert(blk_no),
            r matches Err(e) ==> final(self).view() == old(self).view() && (e.kind
                == FsErrorKind::OutOfMemory || e.kind == FsErrorKind::IOError),
    {
        match lru_get(&mut self.cache, blk_no) {
            Some(i) => {
                assert(self.view() =~= old(self).view());
                assert(self.view().dom() =~= old(self).view().dom().insert(blk_no));
                Ok(i)
            },
            None => {
                if self.buffers.len() == usize::MAX {
                    assert(self.view() =~= old(self).view());
                    return Err(FsError::from(FsErrorKind::OutOfMemory));
                }
                let buf = match SharedBlockBuffer::new(&self.dev, &self.allocator, blk_no) {
                    Ok(b) => b,
                    Err(e) => {
                        assert(self.view() =~= old(self).view());
                        return Err(e);
                    },
                };
                let idx = self.buffers.len();
                self.buffers.push(buf);
                let ghost mid_entries = lru_entries(self.cache);
                let ev = lru_push(&mut self.cache, blk_no, idx);
                match ev {
                    Some((ek, ei)) => {
                        let ghost pre = self.buffers@;
                        let _ = self.buffers[ei].sync(&self.dev);
                        let data = self.buffers[ei].take_data();
                        self.allocator.deallocate(data);
                        assert(self.buffers@.len() == pre.len());
                        assert forall|j: int| 0 <= j < self.buffers@.len() && j != ei implies #[trigger] self.buffers@[j].data
                            == pre[j].data && self.buffers@[j].blk_no == pre[j].blk_no by {}
                    },
                    None => {},
                }
                assert forall|k: u64| #[trigger] lru_entries(self.cache).dom().contains(k) implies lru_entries(self.cache)[k]
                    < self.buffers@.len() && self.buffers@[lru_entries(self.cache)[k] as int].blk_no == k
                    && self.buffers@[lru_entries(self.cache)[k] as int].data@.len() == BLOCK_SIZE by {
                    if k != blk_no {
                        assert(mid_entries.dom().contains(k));
                        assert(lru_entries(old(self).cache).dom().contains(k));
                    }
                }
                assert(self.wf());
                proof {
                    if old(self).unbounded() {
                        assert(lru_entries(old(self).cache).len() < lru_capacity(old(self).cache));
                        assert forall|k: u64| #[trigger] old(self).view().dom().contains(k) implies self.view().dom().contains(k)
                            && self.view()[k] == old(self).view()[k] by {
                            assert(lru_entries(old(self).cache).dom().contains(k));
                            let j = lru_entries(old(self).cache)[k];
                            assert(j < idx);
                        }
                        assert(self.view().dom() =~= old(self).view().dom().insert(blk_no));
                    }
                }
                Ok(idx)
            },
        }
    }

    /// Copies the `len` bytes at `offset` of block `blk_no` into `dst` at
    /// `pos`; the rest of `dst` stays.
    pub fn copy_out(&mut self, blk_no: u64, offset: usize, dst: &mut [u8], pos: usize, len: usize) -> (r:
        Result<(), FsError>)
        requires
            old(self).wf(),
            old(self).unbounded(),
            offset + len <= BLOCK_SIZE,
            pos + len <= old(dst)@.len(),
        ensures
            old(self).view().dom().contains(blk_no) ==> r is Ok,
            final(self).wf(),
            final(self).unbounded(),
            final(self).device() == old(self).device(),
            final(dst)@.len() == old(dst)@.len(),
            r is Ok ==> extends(old(self).view(), final(self).view()) && final(self).view().dom()
                == old(self).view().dom().insert(blk_no) && final(dst)@ == old(dst)@.subrange(
                0,
                pos as int,
            ) + final(self).view()[blk_no].subrange(offset as int, offset + len) + old(
                dst,
            )@.subrange(pos + len, old(dst)@.len() as int),
            r matches Err(e) ==> final(self).view() == old(self).view() && final(dst)@ == old(dst)@
                && (e.kind == FsErrorKind::OutOfMemory || e.kind == FsErrorKind::IOError),
    {
        let i = match self.get_block(blk_no) {
            Ok(i) => i,
            Err(e) => {
                return Err(e);
            },
        };
        let n = dst.len();
        let mut j: usize = 0;
        while j < len
            invariant
                self.wf(),
                i < self.buffers@.len(),
                self.buffers@[i as int].data@ == self.view()[blk_no],
                self.view().dom().contains(blk_no),
                self.buffers@[i as int].data@.len() == BLOCK_SIZE,
                offset + len <= BLOCK_SIZE,
                n == dst@.len(),
                pos + len <= n,
                dst@.len() == old(dst)@.len(),
                j <= len,
                forall|k: int| 0 <= k < pos ==> dst@[k] == old(dst)@[k],
                forall|k: int| pos + len <= k < n ==> dst@[k] == old(dst)@[k],
                forall|k: int| pos <= k < pos + j ==> #[trigger] dst@[k] == self.view()[blk_no][offset + k - pos],
            decreases len - j,
        {
            dst[pos + j] = self.buffers[i].data[offset + j];
            j += 1;
        }
        assert(dst@ =~= old(dst)@.subrange(0, pos as int) + self.view()[blk_no].subrange(
            offset as int,
            offset + len,
        ) + old(dst)@.subrange(pos + len, old(dst)@.len() as int));
        Ok(())
    }

    /// Copies the `len` bytes of `src` at `pos` into block `blk_no` at
    /// `offset`; the block is dirty from then on.
    pub fn copy_in(&mut self, blk_no: u64, offset: usize, src: &[u8], pos: usize, len: usize) -> (r:
        Result<(), FsError>)
        requires
            old(self).wf(),
            old(self).unbounded(),
            offset + len <= BLOCK_SIZE,
            pos + len <= src@.len(),
        ensures
            old(self).view().dom().contains(blk_no) ==> r is Ok,
            final(self).wf(),
            final(self).unbounded(),
            final(self).device() == old(self).device(),
            r is Ok ==> written(
                old(self).view(),
                final(self).view(),
                blk_no,
                offset as int,
                src@.subrange(pos as int, pos + len),
            ),
            r matches Err(e) ==> final(self).view() == old(self).view() && (e.kind
                == FsErrorKind::OutOfMemory || e.kind == FsErrorKind::IOError),
    {
        let i = match self.get_block(blk_no) {
            Ok(i) => i,
            Err(e) => {
                return Err(e);
            },
        };
        let ghost mid = self.view();
        let ghost pre = self.buffers@;
        let total = src.len();
        assert(pos + len <= total);
        let end = pos + len;
        let mut b = self.buffers.remove(i);
        b.write_at(offset, &src[pos..end]);
        let ghost nb = b;
        self.buffers.insert(i, b);
        proof {
            assert(self.buffers@ =~= pre.update(i as int, nb));
            assert forall|k: u64| #[trigger] lru_entries(self.cache).dom().contains(k) implies lru_entries(self.cache)[k]
                < self.buffers@.len() && self.buffers@[lru_entries(self.cache)[k] as int].blk_no == k
                && self.buffers@[lru_entries(self.cache)[k] as int].data@.len() == BLOCK_SIZE by {}
            assert(self.wf());
            assert(self.view().dom() =~= mid.dom());
            assert forall|k: u64| #[trigger] mid.dom().contains(k) && k != blk_no implies self.view()[k] == mid[k] by {
                let j = lru_entries(self.cache)[k];
                assert(pre[j as int].blk_no == k);
                assert(j != i);
            }
            assert(self.view()[blk_no] =~= splice(mid[blk_no], offset as int, src@.subrange(pos as int, pos + len)));
            assert(self.view()[blk_no].subrange(offset as int, offset + len) =~= src@.subrange(pos as int, pos + len));
        }
        Ok(())
    }

    /// The `len` bytes at `offset` of block `blk_no`.
    pub fn read_vec(&mut self, blk_no: u64, offset: usize, len: usize) -> (r: Result<Vec<u8>, FsError>)
        requires
            old(self).wf(),
            old(self).unbounded(),
            offset + len <= BLOCK_SIZE,
        ensures
            old(self).view().dom().contains(blk_no) ==> r is Ok,
            final(self).wf(),
            final(self).unbounded(),
            final(self).device() == old(self).device(),
            r matches Ok(v) ==> v@.len() == len && extends(old(self).view(), final(self).view()) && final(self).view().dom()
                == old(self).view().dom().insert(blk_no) && v@ == final(self).view()[blk_no].subrange(
                offset as int,
                offset + len,
            ),
            r matches Err(e) ==> final(self).view() == old(self).view() && (e.kind
                == FsErrorKind::OutOfMemory || e.kind == FsErrorKind::IOError),
    {
        let mut v: Vec<u8> = vec![0u8; len];
        match self.copy_out(blk_no, offset, v.as_mut_slice(), 0, len) {
            Ok(()) => {
                assert(v@ =~= self.view()[blk_no].subrange(offset as int, offset + len));
                Ok(v)
            },
            Err(e) => Err(e),
        }
    }

    /// The little-endian 64-bit word at `offset` of block `blk_no`.
    pub fn read_u64(&mut self, blk_no: u64, offset: usize) -> (r: Result<u64, FsError>)
        requires
            old(self).wf(),
            old(self).unbounded(),
            offset + 8 <= BLOCK_SIZE,
        ensures
            old(self).view().dom().contains(blk_no) ==> r is Ok,
            final(self).wf(),
            final(self).unbounded(),
            final(self).device() == old(self).device(),
            r matches Ok(w) ==> extends(old(self).view(), final(self).view()) && final(self).view().dom()
                == old(self).view().dom().insert(blk_no) && w == le_value(
                final(self).view()[blk_no].subrange(offset as int, offset + 8),
            ),
            r matches Err(e) ==> final(self).view() == old(self).view() && (e.kind
                == FsErrorKind::OutOfMemory || e.kind == FsErrorKind::IOError),
    {
        match self.read_vec(blk_no, offset, 8) {
            Ok(v) => {
                let w = read_le(v.as_slice(), 0, 8);
                assert(v@.subrange(0, 8) =~= v@);
                Ok(w)
            },
            Err(e) => Err(e),
        }
    }

    /// Writes `w` as a little-endian 64-bit word at `offset` of block
    /// `blk_no`.
    pub fn write_u64(&mut self, blk_no: u64, offset: usize, w: u64) -> (r: Result<(), FsError>)
        requires
            old(self).wf(),
            old(self).unbounded(),
            offset + 8 <= BLOCK_SIZE,
        ensures
            old(self).view().dom().contains(blk_no) ==> r is Ok,
            final(self).wf(),
            final(self).unbounded(),
            final(self).device() == old(self).device(),
            r is Ok ==> written(
                old(self).view(),
                final(self).view(),
                blk_no,
                offset as int,
                le_bytes(w as nat, 8),
            ),
            r matches Err(e) ==> final(self).view() == old(self).view() && (e.kind
                == FsErrorKind::OutOfMemory || e.kind == FsErrorKind::IOError),
    {
        let mut b: Vec<u8> = vec![0u8; 8];
        write_le(&mut b, 0, 8, w);
        assert(b@.subrange(0, 8) =~= b@);
        let r = self.copy_in(blk_no, offset, b.as_slice(), 0, 8);
        proof {
            assert(b@.subrange(0, 8) =~= b@);
        }
        r
    }

    /// Writes block `blk_no` back to the device when it is cached and
    /// dirty.
    pub fn sync_block(&mut self, blk_no: u64) -> (r: Result<(), FsError>)
        requires
            old(self).wf(),
        ensures
            final(self).wf(),
            final(self).unbounded() == old(self).unbounded(),
            final(self).device() == old(self).device(),
            final(self).view() == old(self).view(),
            r matches Err(e) ==> e.kind == FsErrorKind::IOError,
            r is Ok ==> final(self).block_clean(blk_no),
            old(self).block_clean(blk_no) ==> r is Ok,
            forall|k: u64| k != blk_no ==> #[trigger] final(self).block_clean(k) == old(self).block_clean(k),
    {
        match lru_peek(&self.cache, blk_no) {
            Some(i) => {
                let ghost pre = self.buffers@;
                let r = self.buffers[i].sync(&self.dev);
                assert forall|j: int| 0 <= j < self.buffers@.len() implies #[trigger] self.buffers@[j].data
                    == pre[j].data && self.buffers@[j].blk_no == pre[j].blk_no by {}
                assert(self.view() =~= old(self).view());
                r
            },
            None => Ok(()),
        }
    }

    /// Writes every dirty cached block back to the device; stops at the
    /// first failure of the device.
    pub fn sync_all(&mut self) -> (r: Result<(), FsError>)
        requires
            old(self).wf(),
        ensures
            final(self).wf(),
            final(self).unbounded() == old(self).unbounded(),
            final(self).device() == old(self).device(),
            final(self).view() == old(self).view(),
            r is Ok ==> final(self).all_clean(),
            old(self).all_clean() ==> r is Ok,
            r matches Err(e) ==> e.kind == FsErrorKind::IOError,
    {
        let mut i: usize = 0;
        while i < self.buffers.len()
            invariant
                self.wf(),
                self.cache == old(self).cache,
                self.dev == old(self).dev,
                self.buffers@.len() == old(self).buffers@.len(),
                forall|j: int|
                    0 <= j < self.buffers@.len() ==> #[trigger] self.buffers@[j].data
                        == old(self).buffers@[j].data && self.buffers@[j].blk_no == old(
                        self,
                    ).buffers@[j].blk_no,
                i <= self.buffers@.len(),
                forall|k: u64| #[trigger]
                    lru_entries(self.cache).dom().contains(k) && lru_entries(self.cache)[k] < i
                        ==> !self.buffers@[lru_entries(self.cache)[k] as int].is_dirty,
                old(self).all_clean() ==> self.all_clean(),
            decreases self.buffers@.len() - i,
        {
            let blk_no = self.buffers[i].blk_no;
            let kept = match lru_peek(&self.cache, blk_no) {
                Some(j) => j == i,
                None => false,
            };
            if kept {
                let ghost pre = self.buffers@;
                proof {
                    if old(self).all_clean() {
                        assert(lru_entries(self.cache).dom().contains(blk_no));
                        assert(!pre[i as int].is_dirty);
                    }
                }
                let r = self.buffers[i].sync(&self.dev);
                assert forall|j: int| 0 <= j < self.buffers@.len() implies #[trigger] self.buffers@[j].data
                    == pre[j].data && self.buffers@[j].blk_no == pre[j].blk_no by {}
                if r.is_err() {
                    assert(self.view() =~= old(self).view());
                    return r;
                }
                assert forall|j: int| 0 <= j < self.buffers@.len() && j != i implies #[trigger] self.buffers@[j].is_dirty
                    == pre[j].is_dirty by {}
            } else {
                assert forall|k: u64| #[trigger] lru_entries(self.cache).dom().contains(k) implies lru_entries(self.cache)[k] != i by {
                    if lru_entries(self.cache)[k] == i {
                        assert(self.buffers@[i as int].blk_no == k);
                    }
                }
            }
            i += 1;
        }
        assert(self.view() =~= old(self).view());
        Ok(())
    }

    /// The device and the allocator, once the cache is no longer needed.
    pub fn into_parts(self) -> (r: (D, A))
        ensures
            r.0 == self.device(),
    {
        (self.dev, self.allocator)
    }
}

/// What was written into a block is what the block then holds at that
/// place: a read of the same bytes gives them back.
pub proof fn lemma_read_after_write(
    old: Map<u64, Seq<u8>>,
    new: Map<u64, Seq<u8>>,
    blk: u64,
    offset: int,
    data: Seq<u8>,
)
    requires
        written(old, new, blk, offset, data),
    ensures
        new.dom().contains(blk),
        new[blk].subrange(offset, offset + data.len()) == data,
        forall|k: u64| #[trigger] old.dom().contains(k) ==> new.dom().contains(k),
{
}

} // verus!
