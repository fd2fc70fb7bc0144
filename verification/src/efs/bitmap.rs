//! Allocation bitmaps spread over consecutive blocks: bit `i` is bit
//! `i % 8` of byte `i / 8`, counted from the first bitmap block.

use vstd::prelude::*;
use crate::errors::{FsError, FsErrorKind, opt_str_view};
use crate::efs::consts::BLOCK_SIZE;
use crate::efs::dev::BlockDevice;
use crate::efs::buffer::BlockBufferAllocator;
use crate::efs::cache::{BlockCacheManager, extends, written};

verus! {

/// The bits one block holds.
pub const BLOCK_BITS: usize = 32768;

/// The bits of a word.
pub const U64_BITS: usize = 64;

/// The block that holds bit `i` of a bitmap starting at block `start`.
pub open spec fn bit_blk(start: u64, i: int) -> u64 {
    (start + i / (BLOCK_BITS as int)) as u64
}

/// The byte within its block that holds bit `i`.
pub open spec fn bit_byte(i: int) -> int {
    (i % (BLOCK_BITS as int)) / 8
}

/// Whether bit `j` (below 8) of byte `b` is set.
pub open spec fn byte_has(b: u8, j: int) -> bool {
    (b >> (j as u8)) & 1u8 == 1u8
}

/// Whether bit `i` of the bitmap at block `start` is set in `view`.
pub open spec fn bit_set(view: Map<u64, Seq<u8>>, start: u64, i: int) -> bool {
    byte_has(view[bit_blk(start, i)][bit_byte(i)], i % 8)
}

/// `view` holds every block of the bitmap at `start` up to bit `n`.
pub open spec fn covers(view: Map<u64, Seq<u8>>, start: u64, n: int) -> bool {
    forall|i: int| 0 <= i < n ==> #[trigger] view.dom().contains(bit_blk(start, i))
}

/// The number of set bits below bit `n`.
pub open spec fn count_set(view: Map<u64, Seq<u8>>, start: u64, n: int) -> nat
    decreases n,
{
    if n <= 0 {
        0
    } else {
        count_set(view, start, n - 1) + if bit_set(view, start, n - 1) {
            1nat
        } else {
            0nat
        }
    }
}

/// `new` is `old` with bit `i` of the bitmap at `start` made `val`:
/// every block of `old` stays but for the byte of that bit, whose other
/// bits stay too; more blocks may have been read in.
pub open spec fn bit_flipped(
    old: Map<u64, Seq<u8>>,
    new: Map<u64, Seq<u8>>,
    start: u64,
    i: int,
    val: bool,
) -> bool {
    let blk = bit_blk(start, i);
    let by = bit_byte(i);
    &&& forall|k: u64| #[trigger]
        old.dom().contains(k) ==> new.dom().contains(k) && (k != blk ==> new[k] == old[k])
    &&& new.dom().contains(blk)
    &&& new[blk].len() == BLOCK_SIZE
    &&& old.dom().contains(blk) ==> forall|p: int|
        0 <= p < BLOCK_SIZE && p != by ==> #[trigger] new[blk][p] == old[blk][p]
    &&& bit_set(new, start, i) == val
    &&& old.dom().contains(blk) ==> forall|j: int|
        0 <= j < 8 && j != i % 8 ==> #[trigger] byte_has(new[blk][by], j) == byte_has(
            old[blk][by],
            j,
        )
}

/// The number of set bits among the lowest `t` bits of `b`.
pub open spec fn pop_prefix(b: u8, t: int) -> nat
    decreases t,
{
    if t <= 0 {
        0
    } else {
        pop_prefix(b, t - 1) + if byte_has(b, t - 1) {
            1nat
        } else {
            0nat
        }
    }
}

/// The number of words a bitmap of `bits_len` bits spans.
pub open spec fn words_of(bits_len: int) -> int {
    (bits_len + 63) / 64
}

/// The message of a bit index past the end of a bitmap.
pub open spec fn out_of_bound_msg() -> Seq<char> {
    "index out of bound for bitmap."@
}

proof fn lemma_pos_parts(i: u64)
    ensures
        ((i % 32768) / 64) * 8 + (i % 64) / 8 == (i % 32768) / 8,
        (i % 64) % 8 == i % 8,
{
    assert(((i % 32768) / 64) * 8 + (i % 64) / 8 == (i % 32768) / 8) by (bit_vector);
    assert((i % 64) % 8 == i % 8) by (bit_vector);
}

proof fn lemma_set_bit_byte(b: u8, j: u8)
    requires
        j < 8,
    ensures
        byte_has(b | (1u8 << j), j as int),
        forall|k: u8| k < 8 && k != j ==> byte_has(b | (1u8 << j), k as int) == byte_has(b, k as int),
        !byte_has(b, j as int) ==> b | (1u8 << j) != b,
{
    assert(((b | (1u8 << j)) >> j) & 1u8 == 1u8) by (bit_vector)
        requires
            j < 8,
    ;
    assert forall|k: u8| k < 8 && k != j implies byte_has(b | (1u8 << j), k as int) == byte_has(b, k as int) by {
        assert(((b | (1u8 << j)) >> k) & 1u8 == (b >> k) & 1u8) by (bit_vector)
            requires
                j < 8,
                k < 8,
                k != j,
        ;
    }
}

proof fn lemma_clear_bit_byte(b: u8, j: u8)
    requires
        j < 8,
    ensures
        !byte_has(b & !(1u8 << j), j as int),
        forall|k: u8| k < 8 && k != j ==> byte_has(b & !(1u8 << j), k as int) == byte_has(b, k as int),
{
    assert(((b & !(1u8 << j)) >> j) & 1u8 == 0u8) by (bit_vector)
        requires
            j < 8,
    ;
    assert forall|k: u8| k < 8 && k != j implies byte_has(b & !(1u8 << j), k as int) == byte_has(b, k as int) by {
        assert(((b & !(1u8 << j)) >> k) & 1u8 == (b >> k) & 1u8) by (bit_vector)
            requires
                j < 8,
                k < 8,
                k != j,
        ;
    }
}

proof fn lemma_full_byte(b: u8)
    ensures
        b == 0xffu8 ==> forall|j: int| 0 <= j < 8 ==> #[trigger] byte_has(b, j),
        (forall|j: int| 0 <= j < 8 ==> #[trigger] byte_has(b, j)) ==> b == 0xffu8,
{
    assert(b == 0xffu8 ==> (b >> 0u8) & 1u8 == 1u8 && (b >> 1u8) & 1u8 == 1u8 && (b >> 2u8) & 1u8 == 1u8
        && (b >> 3u8) & 1u8 == 1u8 && (b >> 4u8) & 1u8 == 1u8 && (b >> 5u8) & 1u8 == 1u8 && (b >> 6u8)
        & 1u8 == 1u8 && (b >> 7u8) & 1u8 == 1u8) by (bit_vector);
    assert((b >> 0u8) & 1u8 == 1u8 && (b >> 1u8) & 1u8 == 1u8 && (b >> 2u8) & 1u8 == 1u8 && (b >> 3u8)
        & 1u8 == 1u8 && (b >> 4u8) & 1u8 == 1u8 && (b >> 5u8) & 1u8 == 1u8 && (b >> 6u8) & 1u8 == 1u8
        && (b >> 7u8) & 1u8 == 1u8 ==> b == 0xffu8) by (bit_vector);
    if b == 0xffu8 {
        assert forall|j: int| 0 <= j < 8 implies #[trigger] byte_has(b, j) by {
            assert(j == 0 || j == 1 || j == 2 || j == 3 || j == 4 || j == 5 || j == 6 || j == 7);
        }
    }
    if forall|j: int| 0 <= j < 8 ==> #[trigger] byte_has(b, j) {
        assert(byte_has(b, 0) && byte_has(b, 1) && byte_has(b, 2) && byte_has(b, 3));
        assert(byte_has(b, 4) && byte_has(b, 5) && byte_has(b, 6) && byte_has(b, 7));
    }
}

proof fn lemma_bit_in_block(start: u64, q: int, j: int)
    requires
        q >= 0,
        32768 * q <= j < 32768 * (q + 1),
        start + q <= u64::MAX,
    ensures
        bit_blk(start, j) == start + q,
        bit_byte(j) == (j - 32768 * q) / 8,
{
    assert(j / 32768 == q && j % 32768 == j - 32768 * q) by (nonlinear_arith)
        requires
            32768 * q <= j < 32768 * (q + 1),
    ;
}

proof fn lemma_count_byte(view: Map<u64, Seq<u8>>, start: u64, n: int, b: u8, t: int)
    requires
        0 <= n,
        0 <= t <= 8,
        forall|j: int| 0 <= j < t ==> #[trigger] bit_set(view, start, n + j) == byte_has(b, j),
    ensures
        count_set(view, start, n + t) == count_set(view, start, n) + pop_prefix(b, t),
    decreases t,
{
    if t > 0 {
        lemma_count_byte(view, start, n, b, t - 1);
        assert(bit_set(view, start, n + (t - 1)) == byte_has(b, t - 1));
    }
}

proof fn lemma_count_same(a: Map<u64, Seq<u8>>, b: Map<u64, Seq<u8>>, start: u64, n: int)
    requires
        extends(a, b),
        forall|j: int| 0 <= j < n ==> #[trigger] a.dom().contains(bit_blk(start, j)),
    ensures
        count_set(a, start, n) == count_set(b, start, n),
    decreases n,
{
    if n > 0 {
        lemma_count_same(a, b, start, n - 1);
        assert(a.dom().contains(bit_blk(start, n - 1)));
    }
}

/// A bitmap over the blocks from `start_blk_no` up to `end_blk_no`, of
/// `bits_len` bits.
pub struct BitmapBlocks {
    pub start_blk_no: u64,
    pub end_blk_no: u64,
    pub bits_len: usize,
}

impl BitmapBlocks {
    /// The last block is the one that holds the last bit, and every
    /// number involved fits its type.
    pub open spec fn wf(&self) -> bool {
        &&& self.end_blk_no == self.start_blk_no + (self.bits_len + BLOCK_BITS - 1) / (
        BLOCK_BITS as int)
        &&& self.bits_len + BLOCK_BITS <= usize::MAX
    }

    /// A bitmap of `bits_len` bits whose first block is `start_blk_no`.
    pub fn new(start_blk_no: u64, bits_len: usize) -> (r: Self)
        requires
            bits_len + BLOCK_BITS <= usize::MAX,
            start_blk_no + (bits_len + BLOCK_BITS - 1) / (BLOCK_BITS as int) <= u64::MAX,
        ensures
            r.wf(),
            r.start_blk_no == start_blk_no,
            r.bits_len == bits_len,
    {
        let block_len = (bits_len + BLOCK_BITS - 1) / BLOCK_BITS;
        BitmapBlocks { start_blk_no, end_blk_no: start_blk_no + block_len as u64, bits_len }
    }

    /// The number of bits.
    pub fn bits_len(&self) -> (r: usize)
        ensures
            r == self.bits_len,
    {
        self.bits_len
    }

    /// Where bit `index` lies: its block, the index of its 64-bit word
    /// within the block, and its place within that word.
    pub fn locate_bit_pos(&self, index: usize) -> (r: (u64, usize, usize))
        requires
            self.wf(),
            index < self.bits_len,
        ensures
            r.0 == bit_blk(self.start_blk_no, index as int),
            r.1 == (index % BLOCK_BITS) / U64_BITS,
            r.2 == index % U64_BITS,
            r.1 * 8 + r.2 / 8 == bit_byte(index as int),
            r.2 % 8 == index % 8,
    {
        let blk_no = index / BLOCK_BITS;
        let bytes_idx = (index - blk_no * BLOCK_BITS) / U64_BITS;
        let idx_in_bit = index % U64_BITS;
        proof {
            lemma_pos_parts(index as u64);
            assert(blk_no <= (self.bits_len + BLOCK_BITS - 1) / (BLOCK_BITS as int)) by (nonlinear_arith)
                requires
                    blk_no == index / BLOCK_BITS,
                    index < self.bits_len,
            ;
            assert(index - blk_no * BLOCK_BITS == index % BLOCK_BITS) by (nonlinear_arith)
                requires
                    blk_no == index / BLOCK_BITS,
            ;
        }
        (self.start_blk_no + blk_no as u64, bytes_idx, idx_in_bit)
    }

    /// Whether bit `index` is set. An index past the end is refused with
    /// `InvalidArgument`.
    pub fn get_bit<D: BlockDevice, A: BlockBufferAllocator>(
        &self,
        cache: &mut BlockCacheManager<D, A>,
        index: usize,
    ) -> (r: Result<bool, FsError>)
        requires
            self.wf(),
            old(cache).wf(),
            old(cache).unbounded(),
        ensures
            final(cache).wf(),
            final(cache).unbounded(),
            final(cache).device() == old(cache).device(),
            index >= self.bits_len ==> (r matches Err(e) && e.kind == FsErrorKind::InvalidArgument
                && opt_str_view(e.msg) == Some(out_of_bound_msg())) && final(cache).view() == old(
                cache,
            ).view(),
            index < self.bits_len ==> (r matches Ok(b) ==> extends(old(cache).view(), final(cache).view())
                && final(cache).view().dom() == old(cache).view().dom().insert(
                bit_blk(self.start_blk_no, index as int),
            ) && b == bit_set(final(cache).view(), self.start_blk_no, index as int)),
            index < self.bits_len ==> (r matches Err(e) ==> final(cache).view() == old(cache).view() && (
            e.kind == FsErrorKind::OutOfMemory || e.kind == FsErrorKind::IOError)),
            index < self.bits_len && old(cache).view().dom().contains(bit_blk(self.start_blk_no, index as int))
                ==> r is Ok,
    {
        if index >= self.bits_len {
            return Err(FsError::with_fmt_args(FsErrorKind::InvalidArgument, "index out of bound for bitmap."));
        }
        let (blk_no, u64_idx, idx_within_bits) = self.locate_bit_pos(index);
        let byte_off = u64_idx * 8 + idx_within_bits / 8;
        let v = match cache.read_vec(blk_no, byte_off, 1) {
            Ok(v) => v,
            Err(e) => {
                return Err(e);
            },
        };
        let b = v[0];
        let j = (idx_within_bits % 8) as u8;
        proof {
            cache.lemma_view_block_sized();
            assert(cache.view().dom().contains(blk_no));
            assert(cache.view()[blk_no].len() == BLOCK_SIZE);
            assert(byte_off < BLOCK_SIZE);
            assert(b == v@[0]);
            assert(b == cache.view()[blk_no][byte_off as int]);
            assert(j as int == index as int % 8);
        }
        Ok((b >> j) & 1u8 == 1u8)
    }

    fn modify_bit<D: BlockDevice, A: BlockBufferAllocator>(
        &self,
        cache: &mut BlockCacheManager<D, A>,
        index: usize,
        val: bool,
    ) -> (r: Result<(), FsError>)
        requires
            self.wf(),
            old(cache).wf(),
            old(cache).unbounded(),
        ensures
            final(cache).wf(),
            final(cache).unbounded(),
            final(cache).device() == old(cache).device(),
            index >= self.bits_len ==> (r matches Err(e) && e.kind == FsErrorKind::InvalidArgument
                && opt_str_view(e.msg) == Some(out_of_bound_msg())) && final(cache).view() == old(
                cache,
            ).view(),
            index < self.bits_len ==> (r is Ok ==> bit_flipped(
                old(cache).view(),
                final(cache).view(),
                self.start_blk_no,
                index as int,
                val,
            ) && final(cache).view().dom() == old(cache).view().dom().insert(
                bit_blk(self.start_blk_no, index as int),
            )),
            index < self.bits_len ==> (r matches Err(e) ==> extends(old(cache).view(), final(cache).view()) && (
            e.kind == FsErrorKind::OutOfMemory || e.kind == FsErrorKind::IOError)),
            index < self.bits_len && old(cache).view().dom().contains(bit_blk(self.start_blk_no, index as int))
                ==> r is Ok,
    {
        if index >= self.bits_len {
            return Err(FsError::with_fmt_args(FsErrorKind::InvalidArgument, "index out of bound for bitmap."));
        }
        let (blk_no, u64_idx, idx_within_bits) = self.locate_bit_pos(index);
        let byte_off = u64_idx * 8 + idx_within_bits / 8;
        let v = match cache.read_vec(blk_no, byte_off, 1) {
            Ok(v) => v,
            Err(e) => {
                return Err(e);
            },
        };
        let ghost mid = cache.view();
        proof {
            cache.lemma_view_block_sized();
            assert(mid.dom().contains(blk_no));
            assert(mid[blk_no].len() == BLOCK_SIZE);
            assert(byte_off < BLOCK_SIZE);
            assert(v@[0] == mid[blk_no][byte_off as int]);
        }
        let b = v[0];
        let j = (idx_within_bits % 8) as u8;
        let nb = if val {
            b | (1u8 << j)
        } else {
            b & !(1u8 << j)
        };
        proof {
            if val {
                lemma_set_bit_byte(b, j);
            } else {
                lemma_clear_bit_byte(b, j);
            }
        }
        let mut out: Vec<u8> = Vec::new();
        out.push(nb);
        let r = cache.copy_in(blk_no, byte_off, out.as_slice(), 0, 1);
        proof {
            if r is Ok {
                assert(out@.subrange(0, 1) =~= seq![nb]);
                let fin = cache.view();
                assert(fin[blk_no].subrange(byte_off as int, byte_off + 1) == seq![nb]);
                assert(fin[blk_no].len() == BLOCK_SIZE);
                assert(fin[blk_no].subrange(byte_off as int, byte_off + 1)[0] == fin[blk_no][byte_off as int]);
                assert(fin[blk_no][byte_off as int] == nb);
                assert forall|p: int| 0 <= p < BLOCK_SIZE && p != byte_off implies #[trigger] fin[blk_no][p] == mid[blk_no][p] by {
                    assert(fin[blk_no] == crate::efs::cache::splice(mid[blk_no], byte_off as int, seq![nb]));
                }
                assert forall|jj: int| 0 <= jj < 8 && jj != index % 8 implies #[trigger] byte_has(fin[blk_no][byte_off as int], jj)
                    == byte_has(mid[blk_no][byte_off as int], jj) by {
                    let k = jj as u8;
                    assert(k < 8 && k != j);
                }
                assert(fin.dom() =~= old(cache).view().dom().insert(blk_no));
            }
        }
        r
    }

    /// Sets bit `index` (allocates it). An index past the end is refused
    /// with `InvalidArgument`.
    pub fn set_bit<D: BlockDevice, A: BlockBufferAllocator>(
        &self,
        cache: &mut BlockCacheManager<D, A>,
        index: usize,
    ) -> (r: Result<(), FsError>)
        requires
            self.wf(),
            old(cache).wf(),
            old(cache).unbounded(),
        ensures
            final(cache).wf(),
            final(cache).unbounded(),
            final(cache).device() == old(cache).device(),
            index >= self.bits_len ==> (r matches Err(e) && e.kind == FsErrorKind::InvalidArgument
                && opt_str_view(e.msg) == Some(out_of_bound_msg())) && final(cache).view() == old(
                cache,
            ).view(),
            index < self.bits_len ==> (r is Ok ==> bit_flipped(
                old(cache).view(),
                final(cache).view(),
                self.start_blk_no,
                index as int,
                true,
            ) && final(cache).view().dom() == old(cache).view().dom().insert(
                bit_blk(self.start_blk_no, index as int),
            )),
            index < self.bits_len ==> (r matches Err(e) ==> extends(old(cache).view(), final(cache).view()) && (
            e.kind == FsErrorKind::OutOfMemory || e.kind == FsErrorKind::IOError)),
    {
        self.modify_bit(cache, index, true)
    }

    /// Clears bit `index` (frees it). An index past the end is refused
    /// with `InvalidArgument`.
    pub fn clear_bit<D: BlockDevice, A: BlockBufferAllocator>(
        &self,
        cache: &mut BlockCacheManager<D, A>,
        index: usize,
    ) -> (r: Result<(), FsError>)
        requires
            self.wf(),
            old(cache).wf(),
            old(cache).unbounded(),
        ensures
            final(cache).wf(),
            final(cache).unbounded(),
            final(cache).device() == old(cache).device(),
            index >= self.bits_len ==> (r matches Err(e) && e.kind == FsErrorKind::InvalidArgument
                && opt_str_view(e.msg) == Some(out_of_bound_msg())) && final(cache).view() == old(
                cache,
            ).view(),
            index < self.bits_len ==> (r is Ok ==> bit_flipped(
                old(cache).view(),
                final(cache).view(),
                self.start_blk_no,
                index as int,
                false,
            ) && final(cache).view().dom() == old(cache).view().dom().insert(
                bit_blk(self.start_blk_no, index as int),
            )),
            index < self.bits_len ==> (r matches Err(e) ==> extends(old(cache).view(), final(cache).view()) && (
            e.kind == FsErrorKind::OutOfMemory || e.kind == FsErrorKind::IOError)),
            index < self.bits_len && old(cache).view().dom().contains(bit_blk(self.start_blk_no, index as int))
                ==> r is Ok,
    {
        self.modify_bit(cache, index, false)
    }

    /// Allocates the lowest clear bit: sets it and gives its index, or
    /// `None` when every bit is set.
    pub fn alloc_bit<D: BlockDevice, A: BlockBufferAllocator>(
        &self,
        cache: &mut BlockCacheManager<D, A>,
    ) -> (r: Result<Option<usize>, FsError>)
        requires
            self.wf(),
            old(cache).wf(),
            old(cache).unbounded(),
        ensures
            final(cache).wf(),
            final(cache).unbounded(),
            final(cache).device() == old(cache).device(),
            r matches Ok(Some(i)) ==> i < self.bits_len && (forall|j: int|
                0 <= j < i ==> #[trigger] bit_set(final(cache).view(), self.start_blk_no, j))
                && bit_flipped(old(cache).view(), final(cache).view(), self.start_blk_no, i as int, true)
                && (old(cache).view().dom().contains(bit_blk(self.start_blk_no, i as int)) ==> !bit_set(
                old(cache).view(),
                self.start_blk_no,
                i as int,
            )) && covers(final(cache).view(), self.start_blk_no, i + 1),
            r matches Ok(None) ==> extends(old(cache).view(), final(cache).view()) && covers(
                final(cache).view(),
                self.start_blk_no,
                self.bits_len as int,
            ) && forall|j: int|
                0 <= j < self.bits_len ==> #[trigger] bit_set(final(cache).view(), self.start_blk_no, j),
            r matches Err(e) ==> extends(old(cache).view(), final(cache).view()) && (e.kind
                == FsErrorKind::OutOfMemory || e.kind == FsErrorKind::IOError),
            covers(old(cache).view(), self.start_blk_no, self.bits_len as int) ==> r is Ok,
    {
        let start = self.start_blk_no;
        let mut blk = self.start_blk_no;
        let mut g: usize = 0;
        while blk < self.end_blk_no
            invariant
                self.wf(),
                start == self.start_blk_no,
                cache.wf(),
                cache.unbounded(),
                cache.device() == old(cache).device(),
                start <= blk <= self.end_blk_no,
                g == (blk - start) * 4096,
                8 * g <= self.bits_len + BLOCK_BITS,
                extends(old(cache).view(), cache.view()),
                forall|j: int|
                    0 <= j < 8 * g ==> #[trigger] cache.view().dom().contains(bit_blk(start, j)),
                forall|j: int| 0 <= j < 8 * g ==> #[trigger] bit_set(cache.view(), start, j),
            decreases self.end_blk_no - blk,
        {
            let ghost pre = cache.view();
            proof {
                if covers(old(cache).view(), start, self.bits_len as int) {
                    assert(8 * g < self.bits_len && bit_blk(start, 8 * g as int) == blk) by (nonlinear_arith)
                        requires
                            g == (blk - start) * 4096,
                            bit_blk(start, 8 * g as int) == (start + (8 * g) / 32768) as u64,
                            start <= blk < self.end_blk_no,
                            self.end_blk_no == start + (self.bits_len + 32767) / 32768,
                    ;
                    assert(old(cache).view().dom().contains(bit_blk(start, 8 * g as int)));
                }
            }
            let data = match cache.read_vec(blk, 0, BLOCK_SIZE) {
                Ok(v) => v,
                Err(e) => {
                    return Err(e);
                },
            };
            let ghost here = cache.view();
            proof {
                cache.lemma_view_block_sized();
                assert(here.dom().contains(blk));
                assert(here[blk].len() == BLOCK_SIZE);
                assert(data@ =~= here[blk]);
                assert forall|j: int| 0 <= j < 8 * g implies #[trigger] bit_set(here, start, j) by {
                    assert(pre.dom().contains(bit_blk(start, j)));
                    assert(bit_set(pre, start, j));
                }
            }
            let mut k: usize = 0;
            while k < BLOCK_SIZE
                invariant
                    self.wf(),
                    start == self.start_blk_no,
                    cache.wf(),
                    cache.unbounded(),
                    cache.device() == old(cache).device(),
                    cache.view() == here,
                    here.dom().contains(blk),
                    data@ == here[blk],
                    data@.len() == BLOCK_SIZE,
                    start <= blk < self.end_blk_no,
                    g == (blk - start) * 4096,
                    8 * g <= self.bits_len + BLOCK_BITS,
                    k <= BLOCK_SIZE,
                    extends(old(cache).view(), here),
                    forall|j: int|
                        0 <= j < 8 * (g + k) ==> #[trigger] here.dom().contains(bit_blk(start, j)),
                    forall|j: int| 0 <= j < 8 * (g + k) ==> #[trigger] bit_set(here, start, j),
                decreases BLOCK_SIZE - k,
            {
                if (g + k) * 8 >= self.bits_len {
                    return Ok(None);
                }
                let b = data[k];
                proof {
                    lemma_full_byte(b);
                }
                if b != 0xffu8 {
                    let mut t: u8 = 0;
                    while t < 8 && (b >> t) & 1u8 == 1u8
                        invariant
                            t <= 8,
                            b != 0xffu8,
                            forall|jj: int| 0 <= jj < t ==> #[trigger] byte_has(b, jj),
                        decreases 8 - t,
                    {
                        t += 1;
                    }
                    proof {
                        if t == 8 {
                            lemma_full_byte(b);
                        }
                    }
                    let idx = (g + k) * 8 + t as usize;
                    proof {
                        assert forall|j: int| 8 * (g + k) <= j < idx implies #[trigger] bit_set(here, start, j) by {
                            lemma_bit_in_block(start, (blk - start) as int, j);
                            assert((j - 32768 * (blk - start)) / 8 == k && j % 8 == j - 8 * (g + k)) by (nonlinear_arith)
                                requires
                                    8 * (g + k) <= j < 8 * (g + k) + 8,
                                    g == (blk - start) * 4096,
                            ;
                            assert(byte_has(b, j - 8 * (g + k)));
                        }
                    }
                    if idx >= self.bits_len {
                        return Ok(None);
                    }
                    proof {
                        lemma_bit_in_block(start, (blk - start) as int, idx as int);
                        assert((idx - 32768 * (blk - start)) / 8 == k && idx % 8 == t) by (nonlinear_arith)
                            requires
                                idx == 8 * (g + k) + t,
                                t < 8,
                                g == (blk - start) * 4096,
                        ;
                        assert(!bit_set(here, start, idx as int));
                    }
                    match self.modify_bit(cache, idx, true) {
                        Ok(()) => {
                            proof {
                                let fin = cache.view();
                                assert forall|j: int| 0 <= j < idx implies #[trigger] bit_set(fin, start, j) by {
                                    assert(here.dom().contains(bit_blk(start, j)));
                                    assert(bit_set(here, start, j));
                                    if bit_blk(start, j) == bit_blk(start, idx as int) {
                                        if bit_byte(j) == bit_byte(idx as int) {
                                            let ii = idx as int;
                                            assert(j % 8 != ii % 8) by (nonlinear_arith)
                                                requires
                                                    0 <= j < ii,
                                                    (j % 32768) / 8 == (ii % 32768) / 8,
                                                    j / 32768 == ii / 32768,
                                            ;
                                        } else {
                                            cache.lemma_view_block_sized();
                                            assert(0 <= bit_byte(j) < BLOCK_SIZE);
                                        }
                                    }
                                }
                                assert forall|j: int| 0 <= j < idx + 1 implies #[trigger] fin.dom().contains(bit_blk(start, j)) by {
                                    if j < idx {
                                        assert(here.dom().contains(bit_blk(start, j)));
                                    }
                                }
                            }
                            return Ok(Some(idx));
                        },
                        Err(e) => {
                            return Err(e);
                        },
                    }
                }
                proof {
                    assert forall|j: int| 8 * (g + k) <= j < 8 * (g + k + 1) implies #[trigger] bit_set(here, start, j) by {
                        lemma_bit_in_block(start, (blk - start) as int, j);
                        assert((j - 32768 * (blk - start)) / 8 == k && j % 8 == j - 8 * (g + k)) by (nonlinear_arith)
                            requires
                                8 * (g + k) <= j < 8 * (g + k) + 8,
                                g == (blk - start) * 4096,
                        ;
                    }
                    assert forall|j: int| 0 <= j < 8 * (g + k + 1) implies #[trigger] here.dom().contains(bit_blk(start, j)) by {
                        if j >= 8 * (g + k) {
                            lemma_bit_in_block(start, (blk - start) as int, j);
                        }
                    }
                }
                k += 1;
            }
            g = g + BLOCK_SIZE;
            blk = blk + 1;
        }
        proof {
            assert(self.bits_len <= 8 * g) by (nonlinear_arith)
                requires
                    blk == self.end_blk_no,
                    self.end_blk_no == self.start_blk_no + (self.bits_len + BLOCK_BITS - 1) / (BLOCK_BITS as int),
                    g == (blk - self.start_blk_no) * 4096,
            ;
        }
        Ok(None)
    }

    /// The number of set bits in the words that the bitmap spans.
    #[verifier::spinoff_prover]
    #[verifier::rlimit(40)]
    pub fn count_allocated_bits<D: BlockDevice, A: BlockBufferAllocator>(
        &self,
        cache: &mut BlockCacheManager<D, A>,
    ) -> (r: Result<usize, FsError>)
        requires
            self.wf(),
            old(cache).wf(),
            old(cache).unbounded(),
        ensures
            final(cache).wf(),
            final(cache).unbounded(),
            final(cache).device() == old(cache).device(),
            extends(old(cache).view(), final(cache).view()),
            r matches Ok(n) ==> n == count_set(
                final(cache).view(),
                self.start_blk_no,
                64 * words_of(self.bits_len as int),
            ),
            r matches Err(e) ==> e.kind == FsErrorKind::OutOfMemory || e.kind == FsErrorKind::IOError,
            covers(old(cache).view(), self.start_blk_no, 64 * words_of(self.bits_len as int)) ==> r is Ok,
    {
        let start = self.start_blk_no;
        let nbytes = (self.bits_len + 63) / 64 * 8;
        let mut total: usize = 0;
        let mut blk = self.start_blk_no;
        let mut g: usize = 0;
        proof {
            assert(nbytes <= 8 * (self.end_blk_no - start) * 4096) by (nonlinear_arith)
                requires
                    nbytes == (self.bits_len + 63) / 64 * 8,
                    self.end_blk_no == start + (self.bits_len + BLOCK_BITS - 1) / (BLOCK_BITS as int),
            ;
        }
        while g < nbytes
            invariant
                self.wf(),
                start == self.start_blk_no,
                cache.wf(),
                cache.unbounded(),
                cache.device() == old(cache).device(),
                start <= blk <= self.end_blk_no,
                g < nbytes ==> g == (blk - start) * 4096,
                nbytes == (self.bits_len + 63) / 64 * 8,
                g <= nbytes,
                nbytes <= (self.end_blk_no - start) * 4096,
                extends(old(cache).view(), cache.view()),
                forall|j: int| 0 <= j < 8 * g ==> #[trigger] cache.view().dom().contains(bit_blk(start, j)),
                total == count_set(cache.view(), start, 8 * g),
                total <= 8 * g,
            decreases self.end_blk_no - blk,
        {
            let ghost pre = cache.view();
            proof {
                if covers(old(cache).view(), start, 64 * words_of(self.bits_len as int)) {
                    assert(bit_blk(start, 8 * g as int) == blk) by (nonlinear_arith)
                        requires
                            g == (blk - start) * 4096,
                            bit_blk(start, 8 * g as int) == (start + (8 * g) / 32768) as u64,
                            start <= blk,
                    ;
                    assert(8 * g < 64 * words_of(self.bits_len as int));
                    assert(old(cache).view().dom().contains(bit_blk(start, 8 * g as int)));
                }
            }
            let data = match cache.read_vec(blk, 0, BLOCK_SIZE) {
                Ok(v) => v,
                Err(e) => {
                    return Err(e);
                },
            };
            let ghost here = cache.view();
            proof {
                cache.lemma_view_block_sized();
                assert(here.dom().contains(blk));
                assert(here[blk].len() == BLOCK_SIZE);
                assert(data@ =~= here[blk]);
                assert(count_set(here, start, 8 * g) == count_set(pre, start, 8 * g)) by {
                    lemma_count_same(pre, here, start, 8 * g);
                }
            }
            proof {
                assert(blk < self.end_blk_no) by (nonlinear_arith)
                    requires
                        g < nbytes,
                        nbytes <= (self.end_blk_no - start) * 4096,
                        g == (blk - start) * 4096,
                ;
            }
            let lim = if nbytes - g < BLOCK_SIZE {
                nbytes - g
            } else {
                BLOCK_SIZE
            };
            let mut k: usize = 0;
            while k < lim
                invariant
                    lim <= BLOCK_SIZE,
                    g + lim <= nbytes,
                    self.wf(),
                    start == self.start_blk_no,
                    cache.wf(),
                    cache.unbounded(),
                    cache.device() == old(cache).device(),
                    cache.view() == here,
                    here.dom().contains(blk),
                    data@ == here[blk],
                    data@.len() == BLOCK_SIZE,
                    start <= blk < self.end_blk_no,
                    g == (blk - start) * 4096,
                    nbytes == (self.bits_len + 63) / 64 * 8,
                    g + k <= nbytes,
                    nbytes <= (self.end_blk_no - start) * 4096,
                    k <= BLOCK_SIZE,
                    extends(old(cache).view(), here),
                    forall|j: int| 0 <= j < 8 * (g + k) ==> #[trigger] here.dom().contains(bit_blk(start, j)),
                    total == count_set(here, start, 8 * (g + k)),
                    total <= 8 * (g + k),
                decreases BLOCK_SIZE - k,
            {
                let b = data[k];
                let mut t: u8 = 0;
                let mut c: usize = 0;
                while t < 8
                    invariant
                        t <= 8,
                        c == pop_prefix(b, t as int),
                        c <= t,
                    decreases 8 - t,
                {
                    if (b >> t) & 1u8 == 1u8 {
                        c += 1;
                    }
                    t += 1;
                }
                proof {
                    assert forall|j: int| 0 <= j < 8 implies #[trigger] bit_set(here, start, 8 * (g + k) + j) == byte_has(b, j) by {
                        let jj = 8 * (g + k) + j;
                        lemma_bit_in_block(start, (blk - start) as int, jj);
                        assert((jj - 32768 * (blk - start)) / 8 == k && jj % 8 == j) by (nonlinear_arith)
                            requires
                                jj == 8 * (g + k) + j,
                                0 <= j < 8,
                                g == (blk - start) * 4096,
                        ;
                    }
                    lemma_count_byte(here, start, 8 * (g + k), b, 8);
                    assert forall|j: int| 0 <= j < 8 * (g + k + 1) implies #[trigger] here.dom().contains(bit_blk(start, j)) by {
                        if j >= 8 * (g + k) {
                            lemma_bit_in_block(start, (blk - start) as int, j);
                        }
                    }
                }
                total = total + c;
                k += 1;
            }
            g = g + lim;
            blk = blk + 1;
            proof {
                if g < nbytes {
                    assert(lim == BLOCK_SIZE);
                }
            }
        }
        proof {
            assert(8 * g == 64 * words_of(self.bits_len as int));
        }
        Ok(total)
    }
}

/// After a bit is made `val`, testing it gives `val`, and every other bit
/// of a block that was cached before reads as it did.
pub proof fn lemma_flip_then_test(
    old: Map<u64, Seq<u8>>,
    new: Map<u64, Seq<u8>>,
    start: u64,
    i: int,
    val: bool,
    j: int,
)
    requires
        bit_flipped(old, new, start, i, val),
        0 <= i,
        0 <= j,
        j != i,
        start + i / 32768 <= u64::MAX,
        start + j / 32768 <= u64::MAX,
        old.dom().contains(bit_blk(start, j)),
    ensures
        bit_set(new, start, i) == val,
        bit_set(new, start, j) == bit_set(old, start, j),
{
    let bi = bit_blk(start, i);
    let bj = bit_blk(start, j);
    let qi = i / 32768;
    let qj = j / 32768;
    let yi = (i % 32768) / 8;
    let yj = (j % 32768) / 8;
    assert(bi == start + qi && bj == start + qj);
    if bj == bi {
        assert(qi == qj);
        assert(old.dom().contains(bi));
        if yj == yi {
            assert(j % 8 != i % 8) by (nonlinear_arith)
                requires
                    0 <= i,
                    0 <= j,
                    j != i,
                    (j % 32768) / 8 == (i % 32768) / 8,
                    j / 32768 == i / 32768,
            ;
            let jj = j % 8;
            assert(0 <= jj < 8 && jj != i % 8);
            assert(byte_has(new[bi][yi], jj) == byte_has(old[bi][yi], jj));
        } else {
            assert(0 <= yj < BLOCK_SIZE);
            assert(new[bi][yj] == old[bi][yj]);
        }
    } else {
        assert(new[bj] == old[bj]);
    }
}

} // verus!
