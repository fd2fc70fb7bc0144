//! What freeing the blocks of a file leaves behind: the data blocks it gave
//! back are clear in the data bitmap, and the slots that pointed to them
//! hold no block.

use vstd::prelude::*;
use crate::le::{le_value, le_bytes, lemma_le_round_trip, lemma_pow256_values};
use crate::efs::cache::{written, extends};
use crate::efs::inode::RawINode;
use crate::efs::bitmap::{bit_blk, bit_set, bit_flipped, lemma_flip_then_test};
use crate::efs::file::{file_blk, table_entry, second_table, slot_of, BlkSlot, freed_from, tables_ready, max_file_blocks};
use crate::efs::extent::{range_sound, walk_marked, blk_marked, roles_apart, lemma_bitmap_before_data, blocks_of};

verus! {

/// Block `b` is one of the `nblks` data blocks from `ds` on, and its bit
/// in the data bitmap at `start` is clear, in a cached bitmap block.
pub open spec fn blk_free(view: Map<u64, Seq<u8>>, start: u64, ds: int, nblks: int, b: u64) -> bool {
    &&& ds <= b < ds + nblks
    &&& view.dom().contains(bit_blk(start, b - ds))
    &&& !bit_set(view, start, b - ds)
}

/// Slot `s` holds no block: the direct pointer of `n` is zero, or the
/// entry of the cached table is.
pub open spec fn slot_clear(view: Map<u64, Seq<u8>>, n: RawINode, s: BlkSlot) -> bool {
    match s {
        BlkSlot::Direct(k) => n.direct_blk_ptrs@[k as int] == 0,
        BlkSlot::Table(t, e) => view.dom().contains(t) && table_entry(view, t, e as int) == 0,
    }
}

/// Each of file blocks `k` up to `hi` of inode `n0`, as laid out in `v0`,
/// had a data block; in `v` that block is free, and the slot that pointed
/// to it holds no block (a direct slot as `n` has it).
pub open spec fn tail_freed(
    v0: Map<u64, Seq<u8>>,
    n0: RawINode,
    v: Map<u64, Seq<u8>>,
    n: RawINode,
    start: u64,
    ds: int,
    nblks: int,
    k: int,
    hi: int,
) -> bool {
    forall|j: int|
        k <= j < hi ==> #[trigger] file_blk(v0, n0, j) != 0 && blk_free(v, start, ds, nblks, file_blk(v0, n0, j)) && slot_clear(
            v,
            n,
            slot_of(v0, n0, j),
        )
}

/// Where freeing file blocks from `i - 1` down to `lo` stops, a missing
/// data block ending it: just above the highest file block below `i`
/// that has none, or at `lo`.
pub open spec fn tail_start(view: Map<u64, Seq<u8>>, n: RawINode, lo: int, i: int) -> int
    decreases i - lo,
{
    if i <= lo {
        lo
    } else if file_blk(view, n, i - 1) == 0 {
        i
    } else {
        tail_start(view, n, lo, i - 1)
    }
}

/// Truncating inode `n0`, as laid out in `v0`, to `new_size` bytes gave
/// back in `v` its data blocks past the new end, from the last one down to
/// the first file block that has none: each is free and its slot holds no
/// block (a direct slot as `n` has it). With no such gap every block past
/// the new end went. Where the new end lies before the doubly indirect
/// region its table is free too, and before the indirect region the
/// indirect table as well.
pub open spec fn trunc_freed(
    v0: Map<u64, Seq<u8>>,
    n0: RawINode,
    v: Map<u64, Seq<u8>>,
    n: RawINode,
    start: u64,
    ds: int,
    nblks: int,
    new_size: int,
) -> bool {
    let nb = blocks_of(new_size);
    let hi = blocks_of(n0.size as int);
    let k = tail_start(v0, n0, nb, hi);
    &&& tail_freed(v0, n0, v, n, start, ds, nblks, k, hi)
    &&& (forall|j: int| nb <= j < hi ==> #[trigger] file_blk(v0, n0, j) != 0) ==> k == nb
    &&& new_size < n0.size && nb <= 524 && n0.double_indirect_blk_ptr != 0 ==> blk_free(
        v,
        start,
        ds,
        nblks,
        n0.double_indirect_blk_ptr,
    )
    &&& new_size < n0.size && nb <= 12 && n0.indirect_blk_ptr != 0 ==> blk_free(
        v,
        start,
        ds,
        nblks,
        n0.indirect_blk_ptr,
    )
}

/// A size of `s` bytes after `m` blocks were taken off it one at a time,
/// none going below zero.
pub open spec fn shrunk(s: int, m: int) -> int {
    if s >= 4096 * m {
        s - 4096 * m
    } else {
        0
    }
}

/// The walk down stops at `k` when every file block from `k` up to `i`
/// has a data block and the one below `k`, if it is still in range, has
/// none.
pub proof fn lemma_tail_start(view: Map<u64, Seq<u8>>, n: RawINode, lo: int, k: int, i: int)
    requires
        lo <= k <= i,
        forall|j: int| k <= j < i ==> #[trigger] file_blk(view, n, j) != 0,
        k > lo ==> file_blk(view, n, k - 1) == 0,
    ensures
        tail_start(view, n, lo, i) == k,
    decreases i - k,
{
    if i > k {
        assert(file_blk(view, n, i - 1) != 0);
        lemma_tail_start(view, n, lo, k, i - 1);
    }
}

/// Taking one more block off.
pub proof fn lemma_shrunk_step(s: int, m: int)
    requires
        s >= 0,
        m >= 0,
    ensures
        shrunk(s, m) >= 0,
        shrunk(s, m + 1) == if shrunk(s, m) >= 4096 {
            shrunk(s, m) - 4096
        } else {
            0
        },
{
}

/// Writing a zero block number into entry `ew` of table `t` makes that
/// entry zero and keeps every other entry.
proof fn lemma_entry_cleared(v1: Map<u64, Seq<u8>>, v2: Map<u64, Seq<u8>>, t: u64, ew: int, e: int)
    requires
        written(v1, v2, t, 8 * ew, le_bytes(0, 8)),
        v1.dom().contains(t),
        v1[t].len() == 4096,
        0 <= ew < 512,
        0 <= e < 512,
    ensures
        e == ew ==> table_entry(v2, t, e) == 0,
        e != ew ==> table_entry(v2, t, e) == table_entry(v1, t, e),
{
    lemma_pow256_values();
    lemma_le_round_trip(0, 8);
    let z = le_bytes(0, 8);
    if e == ew {
        assert(v2[t].subrange(8 * e, 8 * e + 8) == z);
    } else {
        assert(v2[t].subrange(8 * e, 8 * e + 8) =~= v1[t].subrange(8 * e, 8 * e + 8));
    }
}

/// Within a soundly laid out range, no two file blocks share a slot, and
/// every table slot lies in a cached, marked data block.
pub proof fn lemma_slots_apart(
    v0: Map<u64, Seq<u8>>,
    n0: RawINode,
    start: u64,
    ds: int,
    nblks: int,
    hi: int,
    i: int,
    j: int,
)
    requires
        range_sound(v0, n0, start, ds, nblks, 0, hi),
        0 <= i < hi,
        0 <= j < hi,
        hi <= max_file_blocks(),
    ensures
        i != j ==> slot_of(v0, n0, i) != slot_of(v0, n0, j),
        slot_of(v0, n0, j) matches BlkSlot::Table(t, e) ==> v0.dom().contains(t) && ds <= t && 0 <= e < 512,
{
    assert(walk_marked(v0, n0, start, ds, nblks, j));
    assert(walk_marked(v0, n0, start, ds, nblks, i));
    if i != j && i >= 524 && j >= 524 {
        if (i - 524) / 512 != (j - 524) / 512 {
            assert(second_table(v0, n0, i) != second_table(v0, n0, j));
        } else {
            assert((i - 524) % 512 != (j - 524) % 512) by (nonlinear_arith)
                requires
                    i != j,
                    i >= 524,
                    j >= 524,
                    (i - 524) / 512 == (j - 524) / 512,
            ;
        }
    }
    if j >= 524 {
        assert(roles_apart(v0, n0, 0, j));
    }
    if i >= 524 {
        assert(roles_apart(v0, n0, 0, i));
    }
}

/// One step of freeing from the top down: file block `i` of `n0` gave back
/// its data block `b`. What the steps before it freed stays freed, and
/// block `i` joins them.
pub proof fn lemma_tail_step(
    v0: Map<u64, Seq<u8>>,
    n0: RawINode,
    va: Map<u64, Seq<u8>>,
    na: RawINode,
    v2: Map<u64, Seq<u8>>,
    n2: RawINode,
    start: u64,
    ds: int,
    nblks: int,
    hi: int,
    i: int,
    b: u64,
)
    requires
        range_sound(v0, n0, start, ds, nblks, 0, hi),
        hi <= max_file_blocks(),
        0 <= i < hi,
        tail_freed(v0, n0, va, na, start, ds, nblks, i + 1, hi),
        na.indirect_blk_ptr == n0.indirect_blk_ptr,
        na.double_indirect_blk_ptr == n0.double_indirect_blk_ptr,
        i >= 524 ==> second_table(va, na, i) == second_table(v0, n0, i),
        b == file_blk(v0, n0, i),
        b != 0,
        ds <= b < ds + nblks,
        freed_from(va, v2, na, n2, i, b, start, ds),
        tables_ready(va, na, i),
        forall|x: u64| #[trigger] va.dom().contains(x) ==> va[x].len() == 4096,
    ensures
        tail_freed(v0, n0, v2, n2, start, ds, nblks, i, hi),
{
    let v1 = choose|v1: Map<u64, Seq<u8>>|
        #[trigger] bit_flipped(va, v1, start, b - ds, false) && match slot_of(va, na, i) {
            BlkSlot::Direct(_) => v2 == v1,
            BlkSlot::Table(t, e) => written(v1, v2, t, 8 * e, le_bytes(0, 8)),
        };
    lemma_bitmap_before_data(start, ds, nblks, b);
    let bb = bit_blk(start, b - ds);
    lemma_slots_apart(v0, n0, start, ds, nblks, hi, i, i);
    let si = slot_of(v0, n0, i);
    assert(slot_of(va, na, i) == si);
    assert(v1.dom().contains(bb));
    assert(bit_set(v1, start, b - ds) == false);
    // the step's own block
    match si {
        BlkSlot::Direct(_) => {
            assert(v2 == v1);
        },
        BlkSlot::Table(t, e) => {
            assert(va.dom().contains(t));
            assert(t != bb);
            assert(v1[t] == va[t]);
            lemma_entry_cleared(v1, v2, t, e as int, e as int);
            assert(v2[bb] == v1[bb]);
        },
    }
    assert(blk_free(v2, start, ds, nblks, b));
    assert(slot_clear(v2, n2, si));
    assert forall|j: int| i <= j < hi implies #[trigger] file_blk(v0, n0, j) != 0 && blk_free(v2, start, ds, nblks, file_blk(v0, n0, j),
    ) && slot_clear(v2, n2, slot_of(v0, n0, j)) by {
        if j > i {
            assert(file_blk(v0, n0, j) != 0);
            let bj = file_blk(v0, n0, j);
            assert(blk_free(va, start, ds, nblks, bj));
            assert(slot_clear(va, na, slot_of(v0, n0, j)));
            assert(bj != b);
            assert(blk_marked(v0, start, ds, nblks, bj));
            lemma_bitmap_before_data(start, ds, nblks, bj);
            let bbj = bit_blk(start, bj - ds);
            lemma_flip_then_test(va, v1, start, b - ds, false, bj - ds);
            assert(v1.dom().contains(bbj));
            lemma_slots_apart(v0, n0, start, ds, nblks, hi, i, j);
            let sj = slot_of(v0, n0, j);
            match si {
                BlkSlot::Direct(_) => {
                    match sj {
                        BlkSlot::Direct(kj) => {
                            assert(n2.direct_blk_ptrs@[kj as int] == na.direct_blk_ptrs@[kj as int]);
                        },
                        BlkSlot::Table(tj, ej) => {
                            assert(va.dom().contains(tj));
                            assert(v1[tj] == va[tj]);
                        },
                    }
                },
                BlkSlot::Table(t, e) => {
                    assert(t != bbj);
                    assert(v2[bbj] == v1[bbj]);
                    match sj {
                        BlkSlot::Direct(kj) => {},
                        BlkSlot::Table(tj, ej) => {
                            assert(va.dom().contains(tj));
                            assert(v1[tj] == va[tj]);
                            assert(va.dom().contains(t));
                            assert(v1[t] == va[t]);
                            if tj == t {
                                lemma_entry_cleared(v1, v2, t, e as int, ej as int);
                            } else {
                                assert(v2[tj] == v1[tj]);
                            }
                        },
                    }
                },
            }
        }
    }
}

/// Reading more blocks in keeps what was freed.
pub proof fn lemma_tail_extends(
    v0: Map<u64, Seq<u8>>,
    n0: RawINode,
    v: Map<u64, Seq<u8>>,
    vc: Map<u64, Seq<u8>>,
    n: RawINode,
    start: u64,
    ds: int,
    nblks: int,
    k: int,
    hi: int,
)
    requires
        tail_freed(v0, n0, v, n, start, ds, nblks, k, hi),
        extends(v, vc),
    ensures
        tail_freed(v0, n0, vc, n, start, ds, nblks, k, hi),
{
    assert forall|j: int| k <= j < hi implies #[trigger] file_blk(v0, n0, j) != 0 && blk_free(vc, start, ds, nblks, file_blk(v0, n0, j),
    ) && slot_clear(vc, n, slot_of(v0, n0, j)) by {
        let bb = bit_blk(start, file_blk(v0, n0, j) - ds);
        assert(v.dom().contains(bb));
        match slot_of(v0, n0, j) {
            BlkSlot::Direct(_) => {},
            BlkSlot::Table(t, e) => {
                assert(v.dom().contains(t));
            },
        }
    }
}

/// Writing only blocks before the data bitmap, and reading more blocks
/// in, keeps what was freed; so does a new copy of the inode with the
/// same direct pointers.
pub proof fn lemma_tail_frame(
    v0: Map<u64, Seq<u8>>,
    n0: RawINode,
    v: Map<u64, Seq<u8>>,
    n: RawINode,
    vc: Map<u64, Seq<u8>>,
    nc: RawINode,
    start: u64,
    ds: int,
    nblks: int,
    k: int,
    hi: int,
)
    requires
        range_sound(v0, n0, start, ds, nblks, 0, hi),
        hi <= max_file_blocks(),
        0 <= k,
        tail_freed(v0, n0, v, n, start, ds, nblks, k, hi),
        forall|x: u64| #[trigger] v.dom().contains(x) ==> vc.dom().contains(x) && (x >= start ==> vc[x] == v[x]),
        nc.direct_blk_ptrs == n.direct_blk_ptrs,
    ensures
        tail_freed(v0, n0, vc, nc, start, ds, nblks, k, hi),
{
    assert forall|j: int| k <= j < hi implies #[trigger] file_blk(v0, n0, j) != 0 && blk_free(vc, start, ds, nblks, file_blk(v0, n0, j),
    ) && slot_clear(vc, nc, slot_of(v0, n0, j)) by {
        let bj = file_blk(v0, n0, j);
        assert(blk_marked(v0, start, ds, nblks, bj));
        lemma_bitmap_before_data(start, ds, nblks, bj);
        let bb = bit_blk(start, bj - ds);
        assert(v.dom().contains(bb));
        assert(bb >= start);
        lemma_slots_apart(v0, n0, start, ds, nblks, hi, j, j);
        match slot_of(v0, n0, j) {
            BlkSlot::Direct(_) => {},
            BlkSlot::Table(t, e) => {
                assert(v.dom().contains(t));
            },
        }
    }
}

/// Reading more blocks in changes nothing of a soundly laid out range:
/// each file block keeps its data block and its slot.
pub proof fn lemma_walk_extends(
    a: Map<u64, Seq<u8>>,
    b: Map<u64, Seq<u8>>,
    n0: RawINode,
    start: u64,
    ds: int,
    nblks: int,
    hi: int,
)
    requires
        extends(a, b),
        range_sound(a, n0, start, ds, nblks, 0, hi),
    ensures
        forall|j: int| 0 <= j < hi ==> #[trigger] file_blk(b, n0, j) == file_blk(a, n0, j),
        forall|j: int| 0 <= j < hi ==> #[trigger] slot_of(b, n0, j) == slot_of(a, n0, j),
{
    assert forall|j: int| 0 <= j < hi implies #[trigger] file_blk(b, n0, j) == file_blk(a, n0, j) && slot_of(
        b,
        n0,
        j,
    ) == slot_of(a, n0, j) by {
        assert(walk_marked(a, n0, start, ds, nblks, j));
        if j >= 12 && j < 524 {
            assert(b[n0.indirect_blk_ptr] == a[n0.indirect_blk_ptr]);
        }
        if j >= 524 {
            assert(b[n0.double_indirect_blk_ptr] == a[n0.double_indirect_blk_ptr]);
            assert(second_table(b, n0, j) == second_table(a, n0, j));
            assert(b[second_table(a, n0, j)] == a[second_table(a, n0, j)]);
        }
    }
    assert forall|j: int| 0 <= j < hi implies #[trigger] slot_of(b, n0, j) == slot_of(a, n0, j) by {
        assert(file_blk(b, n0, j) == file_blk(a, n0, j));
    }
}

/// Where the walk down stops depends only on the data blocks of the range.
pub proof fn lemma_tail_start_same(a: Map<u64, Seq<u8>>, b: Map<u64, Seq<u8>>, n0: RawINode, lo: int, i: int)
    requires
        0 <= lo,
        forall|j: int| lo <= j < i ==> #[trigger] file_blk(b, n0, j) == file_blk(a, n0, j),
    ensures
        tail_start(b, n0, lo, i) == tail_start(a, n0, lo, i),
    decreases i - lo,
{
    if i > lo {
        assert(file_blk(b, n0, i - 1) == file_blk(a, n0, i - 1));
        lemma_tail_start_same(a, b, n0, lo, i - 1);
    }
}

/// What was freed of a range, told over a view with more blocks read in,
/// is what was freed of it told over the view before.
pub proof fn lemma_tail_rebase(
    a: Map<u64, Seq<u8>>,
    b: Map<u64, Seq<u8>>,
    n0: RawINode,
    v: Map<u64, Seq<u8>>,
    n: RawINode,
    start: u64,
    ds: int,
    nblks: int,
    k: int,
    hi: int,
)
    requires
        extends(a, b),
        range_sound(a, n0, start, ds, nblks, 0, hi),
        0 <= k,
        tail_freed(b, n0, v, n, start, ds, nblks, k, hi),
    ensures
        tail_freed(a, n0, v, n, start, ds, nblks, k, hi),
{
    lemma_walk_extends(a, b, n0, start, ds, nblks, hi);
    assert forall|j: int| k <= j < hi implies #[trigger] file_blk(a, n0, j) != 0 && blk_free(v, start, ds, nblks, file_blk(a, n0, j),
    ) && slot_clear(v, n, slot_of(a, n0, j)) by {
        assert(file_blk(b, n0, j) != 0);
        assert(slot_of(b, n0, j) == slot_of(a, n0, j));
    }
}

/// Writing only blocks before the data bitmap keeps a free block free.
pub proof fn lemma_free_frame(v: Map<u64, Seq<u8>>, vc: Map<u64, Seq<u8>>, start: u64, ds: int, nblks: int, b: u64)
    requires
        blk_free(v, start, ds, nblks, b),
        start < ds,
        nblks <= (ds - start) * 32768,
        forall|x: u64| #[trigger] v.dom().contains(x) ==> vc.dom().contains(x) && (x >= start ==> vc[x] == v[x]),
    ensures
        blk_free(vc, start, ds, nblks, b),
{
    lemma_bitmap_before_data(start, ds, nblks, b);
    let bb = bit_blk(start, b - ds);
    assert(v.dom().contains(bb));
    assert(bb >= start);
}

/// Truncation's account of what it freed survives writes before the data
/// bitmap and a new copy of the inode with the same direct pointers.
pub proof fn lemma_trunc_frame(
    v0: Map<u64, Seq<u8>>,
    n0: RawINode,
    v: Map<u64, Seq<u8>>,
    n: RawINode,
    vc: Map<u64, Seq<u8>>,
    nc: RawINode,
    start: u64,
    ds: int,
    nblks: int,
    new_size: int,
)
    requires
        range_sound(v0, n0, start, ds, nblks, 0, blocks_of(n0.size as int)),
        blocks_of(n0.size as int) <= max_file_blocks(),
        new_size >= 0,
        trunc_freed(v0, n0, v, n, start, ds, nblks, new_size),
        forall|x: u64| #[trigger] v.dom().contains(x) ==> vc.dom().contains(x) && (x >= start ==> vc[x] == v[x]),
        nc.direct_blk_ptrs == n.direct_blk_ptrs,
    ensures
        trunc_freed(v0, n0, vc, nc, start, ds, nblks, new_size),
{
    let nb = blocks_of(new_size);
    let hi = blocks_of(n0.size as int);
    let k = tail_start(v0, n0, nb, hi);
    assert(k >= 0) by {
        lemma_tail_start_low(v0, n0, nb, hi);
    }
    lemma_tail_frame(v0, n0, v, n, vc, nc, start, ds, nblks, k, hi);
    if new_size < n0.size && nb <= 524 && n0.double_indirect_blk_ptr != 0 {
        lemma_free_frame(v, vc, start, ds, nblks, n0.double_indirect_blk_ptr);
    }
    if new_size < n0.size && nb <= 12 && n0.indirect_blk_ptr != 0 {
        lemma_free_frame(v, vc, start, ds, nblks, n0.indirect_blk_ptr);
    }
}

/// The walk down never stops below where it may go.
pub proof fn lemma_tail_start_low(view: Map<u64, Seq<u8>>, n: RawINode, lo: int, i: int)
    ensures
        tail_start(view, n, lo, i) >= lo,
    decreases i - lo,
{
    if i > lo && file_blk(view, n, i - 1) != 0 {
        lemma_tail_start_low(view, n, lo, i - 1);
    }
}

/// Truncation's account of what it freed, told over a view with more
/// blocks read in, holds over the view before.
pub proof fn lemma_trunc_rebase(
    a: Map<u64, Seq<u8>>,
    b: Map<u64, Seq<u8>>,
    n0: RawINode,
    v: Map<u64, Seq<u8>>,
    n: RawINode,
    start: u64,
    ds: int,
    nblks: int,
    new_size: int,
)
    requires
        extends(a, b),
        range_sound(a, n0, start, ds, nblks, 0, blocks_of(n0.size as int)),
        new_size >= 0,
        trunc_freed(b, n0, v, n, start, ds, nblks, new_size),
    ensures
        trunc_freed(a, n0, v, n, start, ds, nblks, new_size),
{
    let nb = blocks_of(new_size);
    let hi = blocks_of(n0.size as int);
    lemma_walk_extends(a, b, n0, start, ds, nblks, hi);
    assert(nb >= 0);
    lemma_tail_start_same(a, b, n0, nb, hi);
    let k = tail_start(a, n0, nb, hi);
    lemma_tail_start_low(a, n0, nb, hi);
    lemma_tail_rebase(a, b, n0, v, n, start, ds, nblks, k, hi);
    if forall|j: int| nb <= j < hi ==> #[trigger] file_blk(a, n0, j) != 0 {
        assert forall|j: int| nb <= j < hi implies #[trigger] file_blk(b, n0, j) != 0 by {
            assert(file_blk(a, n0, j) != 0);
        }
    }
}

/// Freeing a table block `tb` keeps what was freed, and `tb` joins the
/// free blocks; so does every block that was free already.
pub proof fn lemma_tail_table_free(
    v0: Map<u64, Seq<u8>>,
    n0: RawINode,
    v: Map<u64, Seq<u8>>,
    n: RawINode,
    vc: Map<u64, Seq<u8>>,
    start: u64,
    ds: int,
    nblks: int,
    k: int,
    hi: int,
    tb: u64,
    other: u64,
)
    requires
        range_sound(v0, n0, start, ds, nblks, 0, hi),
        hi <= max_file_blocks(),
        0 <= k,
        tail_freed(v0, n0, v, n, start, ds, nblks, k, hi),
        bit_flipped(v, vc, start, tb - ds, false),
        ds <= tb < ds + nblks,
    ensures
        tail_freed(v0, n0, vc, n, start, ds, nblks, k, hi),
        blk_free(vc, start, ds, nblks, tb),
        ds <= other < ds + nblks && blk_free(v, start, ds, nblks, other) ==> blk_free(vc, start, ds, nblks, other),
{
    lemma_bitmap_before_data(start, ds, nblks, tb);
    if ds <= other < ds + nblks && blk_free(v, start, ds, nblks, other) && other != tb {
        lemma_bitmap_before_data(start, ds, nblks, other);
        lemma_flip_then_test(v, vc, start, tb - ds, false, other - ds);
    }
    assert forall|j: int| k <= j < hi implies #[trigger] file_blk(v0, n0, j) != 0 && blk_free(vc, start, ds, nblks, file_blk(v0, n0, j),
    ) && slot_clear(vc, n, slot_of(v0, n0, j)) by {
        let bj = file_blk(v0, n0, j);
        assert(blk_free(v, start, ds, nblks, bj));
        assert(blk_marked(v0, start, ds, nblks, bj));
        lemma_bitmap_before_data(start, ds, nblks, bj);
        if bj != tb {
            lemma_flip_then_test(v, vc, start, tb - ds, false, bj - ds);
        }
        lemma_slots_apart(v0, n0, start, ds, nblks, hi, j, j);
        match slot_of(v0, n0, j) {
            BlkSlot::Direct(_) => {},
            BlkSlot::Table(t, e) => {
                assert(v.dom().contains(t));
                assert(vc[t] == v[t]);
            },
        }
    }
}

} // verus!
