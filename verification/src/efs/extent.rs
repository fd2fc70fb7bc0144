//! A range of file blocks whose pointers are laid out soundly: the tables
//! on the way exist, every block in use is marked in the data bitmap, and
//! no two roles share a block. A write over such a range leaves it sound,
//! what it wrote is what the range then holds, and every marked block that
//! the range does not use is left as it was.

use vstd::prelude::*;
use crate::le::{le_value, le_bytes, lemma_le_round_trip, lemma_pow256_values, lemma_le_bytes_len};
use crate::efs::cache::{written, splice, extends};
use crate::efs::bitmap::{bit_blk, bit_set, bit_flipped, lemma_flip_then_test};
use crate::efs::file::{
    file_blk, second_table, table_entry, slot_of, tables_ready, alloc_into, freed_from, walk_known, file_byte,
    byte_known,
    write_len, lemma_extends_keeps_byte_pub, BlkSlot,
};
use crate::efs::dev::BlockDevice;
use crate::efs::buffer::BlockBufferAllocator;
use crate::efs::fs::EfsFileSystem;
use crate::efs::inode::RawINode;
use crate::efs::consts::MAX_FILE_SIZE;

verus! {

/// Block `b` is one of the `nblks` data blocks from `ds` on, and its bit
/// in the data bitmap at `start` is set in a cached bitmap block.
pub open spec fn blk_marked(view: Map<u64, Seq<u8>>, start: u64, ds: int, nblks: int, b: u64) -> bool {
    &&& ds <= b < ds + nblks
    &&& view.dom().contains(bit_blk(start, b - ds))
    &&& bit_set(view, start, b - ds)
}

/// Block `b` is a table on the way to file block `j` of inode `n`.
pub open spec fn on_walk(view: Map<u64, Seq<u8>>, n: RawINode, j: int, b: u64) -> bool {
    ||| 12 <= j < 524 && b == n.indirect_blk_ptr
    ||| j >= 524 && (b == n.double_indirect_blk_ptr || b == second_table(view, n, j))
}

/// The tables on the way to file block `j` exist, are cached and are
/// marked in the data bitmap.
pub open spec fn walk_marked(view: Map<u64, Seq<u8>>, n: RawINode, start: u64, ds: int, nblks: int, j: int) -> bool {
    &&& tables_ready(view, n, j)
    &&& 12 <= j < 524 ==> blk_marked(view, start, ds, nblks, n.indirect_blk_ptr)
    &&& j >= 524 ==> blk_marked(view, start, ds, nblks, n.double_indirect_blk_ptr) && blk_marked(
        view,
        start,
        ds,
        nblks,
        second_table(view, n, j),
    )
}

/// The doubly indirect table of `n` is not the second-level table of file
/// block `j`, and, when the range from `lo` reaches into the indirect
/// region, neither is the indirect table.
pub open spec fn roles_apart(view: Map<u64, Seq<u8>>, n: RawINode, lo: int, j: int) -> bool {
    &&& n.double_indirect_blk_ptr != second_table(view, n, j)
    &&& lo < 524 ==> n.indirect_blk_ptr != n.double_indirect_blk_ptr && n.indirect_blk_ptr != second_table(
        view,
        n,
        j,
    )
}

/// File blocks `lo` up to `hi` of inode `n` are laid out soundly in
/// `view`, over a data bitmap at `start` whose bits cover the `nblks` data
/// blocks from `ds` on and lie before them: the tables on the way exist,
/// are cached and marked; every data block there is marked; no data block
/// serves twice or as a table; and the tables that get pointers written
/// into them are apart from the tables that are read on the way.
pub open spec fn range_sound(
    view: Map<u64, Seq<u8>>,
    n: RawINode,
    start: u64,
    ds: int,
    nblks: int,
    lo: int,
    hi: int,
) -> bool {
    &&& 0 <= lo
    &&& start < ds
    &&& nblks <= (ds - start) * 32768
    &&& forall|j: int| lo <= j < hi ==> #[trigger] walk_marked(view, n, start, ds, nblks, j)
    &&& forall|j: int|
        #![trigger file_blk(view, n, j)]
        lo <= j < hi && file_blk(view, n, j) != 0 ==> blk_marked(view, start, ds, nblks, file_blk(view, n, j))
    &&& forall|i: int, j: int|
        #![trigger file_blk(view, n, i), file_blk(view, n, j)]
        lo <= i < hi && lo <= j < hi && i != j && file_blk(view, n, i) != 0 ==> file_blk(view, n, i)
            != file_blk(view, n, j)
    &&& forall|i: int, j: int|
        #![trigger on_walk(view, n, j, file_blk(view, n, i))]
        lo <= i < hi && lo <= j < hi && file_blk(view, n, i) != 0 ==> !on_walk(view, n, j, file_blk(view, n, i))
    &&& forall|j: int| lo <= j < hi && j >= 524 ==> #[trigger] roles_apart(view, n, lo, j)
    &&& forall|i: int, j: int|
        #![trigger second_table(view, n, i), second_table(view, n, j)]
        lo <= i < hi && lo <= j < hi && i >= 524 && j >= 524 && (i - 524) / 512 != (j - 524) / 512
            ==> second_table(view, n, i) != second_table(view, n, j)
}

/// A bitmap block lies before the data region.
pub proof fn lemma_bitmap_before_data(start: u64, ds: int, nblks: int, x: u64)
    requires
        start < ds,
        nblks <= (ds - start) * 32768,
        ds <= x < ds + nblks,
        ds <= u64::MAX,
    ensures
        bit_blk(start, x - ds) < ds,
{
    assert((x - ds) / 32768 < ds - start) by (nonlinear_arith)
        requires
            0 <= x - ds < nblks,
            nblks <= (ds - start) * 32768,
    ;
}

/// Reading blocks in, and writing at most one block `c` that lies before
/// the data bitmap or is a block of the data region but no table of the
/// range, keeps the range sound and each of its pointers where it was.
pub proof fn lemma_sound_frame(
    v: Map<u64, Seq<u8>>,
    v2: Map<u64, Seq<u8>>,
    n: RawINode,
    start: u64,
    ds: int,
    nblks: int,
    lo: int,
    hi: int,
    c: Option<u64>,
)
    requires
        range_sound(v, n, start, ds, nblks, lo, hi),
        c matches Some(b) ==> b < start || (ds <= b && forall|j: int| lo <= j < hi ==> !#[trigger] on_walk(v, n, j, b)),
        forall|x: u64| #[trigger] v.dom().contains(x) ==> v2.dom().contains(x) && (c != Some(x) ==> v2[x] == v[x]),
    ensures
        range_sound(v2, n, start, ds, nblks, lo, hi),
        forall|j: int| lo <= j < hi ==> #[trigger] file_blk(v2, n, j) == file_blk(v, n, j),
        forall|j: int| lo <= j < hi && j >= 524 ==> #[trigger] second_table(v2, n, j) == second_table(v, n, j),
        forall|x: u64| #[trigger] blk_marked(v, start, ds, nblks, x) ==> blk_marked(v2, start, ds, nblks, x),
{
    assert forall|x: u64| #[trigger] blk_marked(v, start, ds, nblks, x) implies blk_marked(v2, start, ds, nblks, x) by {
        lemma_bitmap_before_data(start, ds, nblks, x);
        let bb = bit_blk(start, x - ds);
        assert(bb >= start);
        assert(v.dom().contains(bb));
        assert(v2[bb] == v[bb]);
    }
    assert forall|j: int| lo <= j < hi implies (j >= 524 ==> second_table(v2, n, j) == second_table(v, n, j))
        && #[trigger] file_blk(v2, n, j) == file_blk(v, n, j) && walk_marked(v2, n, start, ds, nblks, j) by {
        assert(walk_marked(v, n, start, ds, nblks, j));
        if let Some(b) = c {
            if ds <= b {
                assert(!on_walk(v, n, j, b));
            }
        }
        if 12 <= j < 524 {
            assert(v2[n.indirect_blk_ptr] == v[n.indirect_blk_ptr]);
        } else if j >= 524 {
            assert(v2[n.double_indirect_blk_ptr] == v[n.double_indirect_blk_ptr]);
            assert(second_table(v2, n, j) == second_table(v, n, j));
            assert(v2[second_table(v, n, j)] == v[second_table(v, n, j)]);
        }
    }
    assert forall|j: int| #![trigger file_blk(v2, n, j)] lo <= j < hi && file_blk(v2, n, j) != 0 implies blk_marked(
        v2,
        start,
        ds,
        nblks,
        file_blk(v2, n, j),
    ) by {
        assert(file_blk(v2, n, j) == file_blk(v, n, j));
        assert(blk_marked(v, start, ds, nblks, file_blk(v, n, j)));
    }
    assert forall|i: int, j: int|
        #![trigger file_blk(v2, n, i), file_blk(v2, n, j)]
        lo <= i < hi && lo <= j < hi && i != j && file_blk(v2, n, i) != 0 implies file_blk(v2, n, i) != file_blk(
            v2,
            n,
            j,
        ) by {
        assert(file_blk(v2, n, i) == file_blk(v, n, i));
        assert(file_blk(v2, n, j) == file_blk(v, n, j));
    }
    assert forall|i: int, j: int|
        #![trigger on_walk(v2, n, j, file_blk(v2, n, i))]
        lo <= i < hi && lo <= j < hi && file_blk(v2, n, i) != 0 implies !on_walk(v2, n, j, file_blk(v2, n, i)) by {
        assert(file_blk(v2, n, i) == file_blk(v, n, i));
        assert(file_blk(v2, n, j) == file_blk(v, n, j));
        assert(!on_walk(v, n, j, file_blk(v, n, i)));
    }
    assert forall|j: int| lo <= j < hi && j >= 524 implies #[trigger] roles_apart(v2, n, lo, j) by {
        assert(file_blk(v2, n, j) == file_blk(v, n, j));
        assert(roles_apart(v, n, lo, j));
    }
    assert forall|i: int, j: int|
        #![trigger second_table(v2, n, i), second_table(v2, n, j)]
        lo <= i < hi && lo <= j < hi && i >= 524 && j >= 524 && (i - 524) / 512 != (j - 524) / 512 implies second_table(
            v2,
            n,
            i,
        ) != second_table(v2, n, j) by {
        assert(file_blk(v2, n, i) == file_blk(v, n, i));
        assert(file_blk(v2, n, j) == file_blk(v, n, j));
    }
    assert forall|j: int| lo <= j < hi implies #[trigger] walk_marked(v2, n, start, ds, nblks, j) && (j >= 524
        ==> second_table(v2, n, j) == second_table(v, n, j)) by {
        assert(file_blk(v2, n, j) == file_blk(v, n, j));
    }
    assert forall|j: int| lo <= j < hi && j >= 524 implies #[trigger] second_table(v2, n, j) == second_table(v, n, j) by {
        assert(file_blk(v2, n, j) == file_blk(v, n, j));
    }
}

/// The bytes of a block outside the part a splice replaced stay.
pub proof fn lemma_splice_outside(block: Seq<u8>, off: int, data: Seq<u8>, a: int, len: int)
    requires
        block.len() == 4096,
        0 <= off,
        off + data.len() <= 4096,
        0 <= a,
        a + len <= 4096,
        0 <= len,
        a + len <= off || a >= off + data.len(),
    ensures
        splice(block, off, data).subrange(a, a + len) == block.subrange(a, a + len),
{
    let s = splice(block, off, data);
    assert(s.len() == 4096);
    assert forall|q: int| 0 <= q < len implies #[trigger] s.subrange(a, a + len)[q] == block.subrange(a, a + len)[q] by {
        if a + q < off {
            assert(s[a + q] == block[a + q]);
        } else {
            assert(a + q >= off + data.len());
            assert(s[a + q] == block.subrange(off + data.len(), 4096)[a + q - off - data.len()]);
        }
    }
    assert(s.subrange(a, a + len) =~= block.subrange(a, a + len));
}

/// Setting the bit of a block that was not marked keeps every marked block
/// marked and marks that block.
proof fn lemma_flip_marks(
    v: Map<u64, Seq<u8>>,
    v1: Map<u64, Seq<u8>>,
    start: u64,
    ds: int,
    nblks: int,
    b: u64,
)
    requires
        start < ds,
        nblks <= (ds - start) * 32768,
        ds <= b < ds + nblks,
        v.dom().contains(bit_blk(start, b - ds)) ==> !bit_set(v, start, b - ds),
        bit_flipped(v, v1, start, b - ds, true),
    ensures
        blk_marked(v1, start, ds, nblks, b),
        forall|x: u64| #[trigger] blk_marked(v, start, ds, nblks, x) ==> x != b && blk_marked(v1, start, ds, nblks, x),
        forall|x: u64| #[trigger] v.dom().contains(x) ==> v1.dom().contains(x) && (x >= ds ==> v1[x] == v[x]),
{
    lemma_bitmap_before_data(start, ds, nblks, b);
    assert forall|x: u64| #[trigger] blk_marked(v, start, ds, nblks, x) implies x != b && blk_marked(
        v1,
        start,
        ds,
        nblks,
        x,
    ) by {
        lemma_bitmap_before_data(start, ds, nblks, x);
        if x == b {
            assert(false);
        }
        lemma_flip_then_test(v, v1, start, b - ds, true, x - ds);
    }
}

/// Once a block has been marked, writing a block of the data region
/// keeps it marked.
proof fn lemma_write_keeps_marks(
    v1: Map<u64, Seq<u8>>,
    v2: Map<u64, Seq<u8>>,
    start: u64,
    ds: int,
    nblks: int,
    t: u64,
)
    requires
        start < ds,
        nblks <= (ds - start) * 32768,
        ds <= t,
        forall|x: u64| #[trigger] v1.dom().contains(x) ==> v2.dom().contains(x) && (x != t ==> v2[x] == v1[x]),
    ensures
        forall|x: u64| #[trigger] blk_marked(v1, start, ds, nblks, x) ==> blk_marked(v2, start, ds, nblks, x),
{
    assert forall|x: u64| #[trigger] blk_marked(v1, start, ds, nblks, x) implies blk_marked(v2, start, ds, nblks, x) by {
        lemma_bitmap_before_data(start, ds, nblks, x);
        let bb = bit_blk(start, x - ds);
        assert(v1.dom().contains(bb));
        assert(v2[bb] == v1[bb]);
    }
}

/// Putting free block `b` into the empty slot of file block `k` of a
/// sound range keeps the range sound and points file block `k` at `b`;
/// every other pointer of the range, and every block in use there, stays.
#[verifier::rlimit(60)]
pub proof fn lemma_sound_alloc(
    v: Map<u64, Seq<u8>>,
    v2: Map<u64, Seq<u8>>,
    n: RawINode,
    n2: RawINode,
    start: u64,
    ds: int,
    nblks: int,
    lo: int,
    hi: int,
    k: int,
    b: u64,
)
    requires
        range_sound(v, n, start, ds, nblks, lo, hi),
        lo <= k < hi,
        file_blk(v, n, k) == 0,
        ds <= b < ds + nblks,
        v.dom().contains(bit_blk(start, b - ds)) ==> !bit_set(v, start, b - ds),
        alloc_into(v, v2, n, n2, k, b, start, ds),
        forall|x: u64| #[trigger] v.dom().contains(x) ==> v[x].len() == 4096,
    ensures
        range_sound(v2, n2, start, ds, nblks, lo, hi),
        file_blk(v2, n2, k) == b,
        forall|j: int| lo <= j < hi && j != k ==> #[trigger] file_blk(v2, n2, j) == file_blk(v, n, j),
        forall|x: u64| #[trigger] v.dom().contains(x) ==> v2.dom().contains(x) && (x < start ==> v2[x] == v[x]),
        forall|j: int|
            lo <= j < hi && j != k && file_blk(v, n, j) != 0 && v.dom().contains(file_blk(v, n, j))
                ==> v2[#[trigger] file_blk(v, n, j)] == v[file_blk(v, n, j)],
        forall|j: int| lo <= j < hi && j >= 524 ==> #[trigger] second_table(v2, n2, j) == second_table(v, n, j),
        forall|x: u64|
            #[trigger] v.dom().contains(x) && x >= ds && !on_walk(v, n, k, x) ==> v2[x] == v[x],
        forall|x: u64| #[trigger] blk_marked(v, start, ds, nblks, x) ==> blk_marked(v2, start, ds, nblks, x),
{
    let v1 = choose|v1: Map<u64, Seq<u8>>| #[trigger]
        bit_flipped(v, v1, start, b - ds, true) && match slot_of(v, n, k) {
            BlkSlot::Direct(_) => v2 == v1,
            BlkSlot::Table(t, i) => written(v1, v2, t, 8 * i, le_bytes(b as nat, 8)),
        };
    lemma_flip_marks(v, v1, start, ds, nblks, b);
    assert(walk_marked(v, n, start, ds, nblks, k));
    // The table (if any) that receives the pointer, and the facts about it.
    let t: u64 = match slot_of(v, n, k) {
        BlkSlot::Direct(_) => 0,
        BlkSlot::Table(t, _) => t,
    };
    let si: int = match slot_of(v, n, k) {
        BlkSlot::Direct(_) => 0,
        BlkSlot::Table(_, i) => i as int,
    };
    if k >= 12 {
        assert(on_walk(v, n, k, t));
        assert(blk_marked(v, start, ds, nblks, t));
        assert(v.dom().contains(t));
        assert(written(v1, v2, t, 8 * si, le_bytes(b as nat, 8)));
        lemma_write_keeps_marks(v1, v2, start, ds, nblks, t);
        assert(v1[t] == v[t]);
        assert(v2[t] == splice(v1[t], 8 * si, le_bytes(b as nat, 8)));
        lemma_pow256_values();
        lemma_le_round_trip(b as nat, 8);
        assert(v2[t].subrange(8 * si, 8 * si + 8) == le_bytes(b as nat, 8));
        assert(table_entry(v2, t, si) == b);
        assert(0 <= si < 512);
    } else {
        assert(v2 == v1);
    }
    // Blocks of the data region other than `t` are unchanged.
    lemma_bitmap_before_data(start, ds, nblks, b);
    assert(bit_blk(start, b - ds) >= start);
    assert forall|x: u64| #[trigger] v.dom().contains(x) implies v2.dom().contains(x) && ((x >= ds && (k < 12 || x
        != t)) || x < start ==> v2[x] == v[x]) by {
        assert(v1.dom().contains(x));
    }
    // Every marked block of `v` stays marked, and `b` is marked.
    assert forall|x: u64| #[trigger] blk_marked(v, start, ds, nblks, x) implies x != b && blk_marked(
        v2,
        start,
        ds,
        nblks,
        x,
    ) by {
        assert(blk_marked(v1, start, ds, nblks, x));
    }
    assert(blk_marked(v2, start, ds, nblks, b));
    assert(b != 0);
    // The tables of the range are the same blocks, hold the same pointers
    // but for the new one, and stay marked.
    assert forall|j: int| lo <= j < hi implies #[trigger] walk_marked(v2, n2, start, ds, nblks, j) && (j != k
        ==> file_blk(v2, n2, j) == file_blk(v, n, j)) && (j >= 524 ==> second_table(v2, n2, j) == second_table(
        v,
        n,
        j,
    )) by {
        assert(walk_marked(v, n, start, ds, nblks, j));
        if j >= 524 {
            let d = n.double_indirect_blk_ptr;
            if k >= 12 {
                if k < 524 {
                    assert(roles_apart(v, n, lo, j));
                    assert(t == n.indirect_blk_ptr);
                    assert(t != d);
                } else {
                    assert(t == second_table(v, n, k));
                    assert(roles_apart(v, n, lo, k));
                    assert(t != d);
                }
            }
            assert(v2[d] == v[d]);
            assert(second_table(v2, n2, j) == second_table(v, n, j));
            let st = second_table(v, n, j);
            if j != k {
                if k >= 12 && st == t {
                    if k < 524 {
                        assert(roles_apart(v, n, lo, j));
                        assert(false);
                    } else {
                        assert(second_table(v, n, k) == second_table(v, n, k));
                        assert((j - 524) / 512 == (k - 524) / 512);
                        assert((j - 524) % 512 != (k - 524) % 512);
                        lemma_splice_outside(v1[t], 8 * si, le_bytes(b as nat, 8), 8 * ((j - 524) % 512), 8);
                        assert(table_entry(v2, t, (j - 524) % 512) == table_entry(v, t, (j - 524) % 512));
                    }
                } else {
                    assert(v2[st] == v[st]);
                }
                assert(file_blk(v2, n2, j) == file_blk(v, n, j));
            }
        } else if j >= 12 {
            let ind = n.indirect_blk_ptr;
            if j != k {
                if k >= 12 && ind == t {
                    if k >= 524 {
                        assert(roles_apart(v, n, lo, k));
                        assert(false);
                    }
                    lemma_splice_outside(v1[t], 8 * si, le_bytes(b as nat, 8), 8 * (j - 12), 8);
                } else {
                    assert(v2[ind] == v[ind]);
                }
                assert(file_blk(v2, n2, j) == file_blk(v, n, j));
            }
        } else if j != k {
            assert(n2.direct_blk_ptrs@[j] == n.direct_blk_ptrs@[j]);
        }
    }
    if k < 12 {
        assert(n2.direct_blk_ptrs@[k] == b);
    } else if k < 524 {
        assert(file_blk(v2, n2, k) == b);
    } else {
        assert(walk_marked(v2, n2, start, ds, nblks, k));
        assert(second_table(v2, n2, k) == t);
        assert(file_blk(v2, n2, k) == b);
    }
    assert forall|j: int| lo <= j < hi && j != k implies #[trigger] file_blk(v2, n2, j) == file_blk(v, n, j) by {
        assert(walk_marked(v2, n2, start, ds, nblks, j));
    }
    // The rest of soundness.
    assert forall|j: int| #![trigger file_blk(v2, n2, j)] lo <= j < hi && file_blk(v2, n2, j) != 0 implies blk_marked(
        v2,
        start,
        ds,
        nblks,
        file_blk(v2, n2, j),
    ) by {
        if j != k {
            assert(file_blk(v2, n2, j) == file_blk(v, n, j));
            assert(blk_marked(v, start, ds, nblks, file_blk(v, n, j)));
        }
    }
    assert forall|i: int, j: int|
        #![trigger file_blk(v2, n2, i), file_blk(v2, n2, j)]
        lo <= i < hi && lo <= j < hi && i != j && file_blk(v2, n2, i) != 0 implies file_blk(v2, n2, i) != file_blk(
            v2,
            n2,
            j,
        ) by {
        if i == k {
            assert(file_blk(v2, n2, j) == file_blk(v, n, j));
            if file_blk(v, n, j) != 0 {
                assert(blk_marked(v, start, ds, nblks, file_blk(v, n, j)));
            }
        } else if j == k {
            assert(file_blk(v2, n2, i) == file_blk(v, n, i));
            assert(blk_marked(v, start, ds, nblks, file_blk(v, n, i)));
        } else {
            assert(file_blk(v2, n2, i) == file_blk(v, n, i));
            assert(file_blk(v2, n2, j) == file_blk(v, n, j));
        }
    }
    assert forall|i: int, j: int|
        #![trigger on_walk(v2, n2, j, file_blk(v2, n2, i))]
        lo <= i < hi && lo <= j < hi && file_blk(v2, n2, i) != 0 implies !on_walk(v2, n2, j, file_blk(v2, n2, i)) by {
        assert(walk_marked(v2, n2, start, ds, nblks, j));
        assert(walk_marked(v, n, start, ds, nblks, j));
        if i == k {
            if 12 <= j < 524 {
                assert(blk_marked(v, start, ds, nblks, n.indirect_blk_ptr));
            } else if j >= 524 {
                assert(blk_marked(v, start, ds, nblks, n.double_indirect_blk_ptr));
                assert(blk_marked(v, start, ds, nblks, second_table(v, n, j)));
            }
        } else {
            assert(file_blk(v2, n2, i) == file_blk(v, n, i));
            assert(!on_walk(v, n, j, file_blk(v, n, i)));
        }
    }
    assert forall|j: int| lo <= j < hi && j >= 524 implies #[trigger] roles_apart(v2, n2, lo, j) by {
        assert(walk_marked(v2, n2, start, ds, nblks, j));
        assert(roles_apart(v, n, lo, j));
        assert(n.double_indirect_blk_ptr != second_table(v, n, j));
        assert(second_table(v2, n2, j) == second_table(v, n, j));
        assert(n2.double_indirect_blk_ptr != second_table(v2, n2, j));
        if lo < 524 {
            assert(n.indirect_blk_ptr != n.double_indirect_blk_ptr);
            assert(n.indirect_blk_ptr != second_table(v, n, j));
        }
    }
    assert forall|i: int, j: int|
        #![trigger second_table(v2, n2, i), second_table(v2, n2, j)]
        lo <= i < hi && lo <= j < hi && i >= 524 && j >= 524 && (i - 524) / 512 != (j - 524) / 512 implies second_table(
            v2,
            n2,
            i,
        ) != second_table(v2, n2, j) by {
        assert(walk_marked(v2, n2, start, ds, nblks, i));
        assert(walk_marked(v2, n2, start, ds, nblks, j));
        assert(second_table(v, n, i) != second_table(v, n, j));
    }
    assert forall|j: int| lo <= j < hi && j != k && file_blk(v, n, j) != 0 && v.dom().contains(file_blk(v, n, j)) implies v2[#[trigger] file_blk(
            v,
            n,
            j,
        )] == v[file_blk(v, n, j)] by {
        let d = file_blk(v, n, j);
        assert(blk_marked(v, start, ds, nblks, d));
        if k >= 12 {
            assert(!on_walk(v, n, k, file_blk(v, n, j)));
        }
    }
    assert forall|j: int| lo <= j < hi && j >= 524 implies #[trigger] second_table(v2, n2, j) == second_table(v, n, j) by {
        assert(walk_marked(v2, n2, start, ds, nblks, j));
    }
    assert forall|x: u64| #[trigger] v.dom().contains(x) && x >= ds && !on_walk(v, n, k, x) implies v2[x] == v[x] by {
        if k >= 12 {
            assert(on_walk(v, n, k, t));
        }
    }
}

/// One past the last file block that a write of `len` bytes at `offset`
/// reaches (the write stops at the largest file size).
pub open spec fn write_hi(offset: int, len: int) -> int {
    let wl = write_len(offset, len);
    if wl <= 0 {
        offset / 4096
    } else {
        (offset + wl - 1) / 4096 + 1
    }
}

/// The file blocks that a write of `len` bytes at `offset` into inode `n`
/// reaches are laid out soundly in file system `fs`.
pub open spec fn write_ready<D: BlockDevice, A: BlockBufferAllocator>(
    fs: EfsFileSystem<D, A>,
    n: RawINode,
    offset: int,
    len: int,
) -> bool {
    range_sound(
        fs.cache.view(),
        n,
        fs.data_bitmap.start_blk_no,
        fs.data_start(),
        fs.superblock.data_blocks as int,
        offset / 4096,
        write_hi(offset, len),
    )
}

/// Inode `n` holds the first `m` bytes of `src` from `offset` on, in
/// cached blocks.
pub open spec fn holds_prefix(view: Map<u64, Seq<u8>>, n: RawINode, offset: int, src: Seq<u8>, m: int) -> bool {
    forall|q: int|
        offset <= q < offset + m ==> #[trigger] file_byte(view, n, q) == src[q - offset] && byte_known(view, n, q)
            && file_blk(view, n, q / 4096) != 0
}

/// What holds of each byte of a prefix holds of the prefix.
pub proof fn lemma_holds_prefix_intro(view: Map<u64, Seq<u8>>, n: RawINode, offset: int, src: Seq<u8>, m: int)
    requires
        forall|q: int|
            offset <= q < offset + m ==> #[trigger] file_byte(view, n, q) == src[q - offset] && byte_known(view, n, q)
                && file_blk(view, n, q / 4096) != 0,
    ensures
        holds_prefix(view, n, offset, src, m),
{
}

/// Two inodes with the same block pointers have the same layout.
pub proof fn lemma_same_pointers(
    v: Map<u64, Seq<u8>>,
    n: RawINode,
    n2: RawINode,
    start: u64,
    ds: int,
    nblks: int,
    lo: int,
    hi: int,
    offset: int,
    src: Seq<u8>,
    m: int,
)
    requires
        n2.direct_blk_ptrs == n.direct_blk_ptrs,
        n2.indirect_blk_ptr == n.indirect_blk_ptr,
        n2.double_indirect_blk_ptr == n.double_indirect_blk_ptr,
    ensures
        range_sound(v, n, start, ds, nblks, lo, hi) ==> range_sound(v, n2, start, ds, nblks, lo, hi),
        holds_prefix(v, n, offset, src, m) ==> holds_prefix(v, n2, offset, src, m),
        forall|j: int| #[trigger] file_blk(v, n2, j) == file_blk(v, n, j),
        forall|j: int| #[trigger] second_table(v, n2, j) == second_table(v, n, j),
{
    assert forall|j: int| #[trigger] file_blk(v, n2, j) == file_blk(v, n, j) && second_table(v, n2, j)
        == second_table(v, n, j) && walk_marked(v, n2, start, ds, nblks, j) == walk_marked(v, n, start, ds, nblks, j)
        && walk_known(v, n2, j) == walk_known(v, n, j) && roles_apart(v, n2, lo, j) == roles_apart(v, n, lo, j) by {}
    if range_sound(v, n, start, ds, nblks, lo, hi) {
        assert forall|j: int| lo <= j < hi implies #[trigger] walk_marked(v, n2, start, ds, nblks, j) by {
            assert(file_blk(v, n2, j) == file_blk(v, n, j));
        }
        assert forall|j: int| #![trigger file_blk(v, n2, j)] lo <= j < hi && file_blk(v, n2, j) != 0 implies blk_marked(
            v,
            start,
            ds,
            nblks,
            file_blk(v, n2, j),
        ) by {
            assert(file_blk(v, n2, j) == file_blk(v, n, j));
        }
        assert forall|i: int, j: int|
            #![trigger file_blk(v, n2, i), file_blk(v, n2, j)]
            lo <= i < hi && lo <= j < hi && i != j && file_blk(v, n2, i) != 0 implies file_blk(v, n2, i) != file_blk(
                v,
                n2,
                j,
            ) by {
            assert(file_blk(v, n2, i) == file_blk(v, n, i));
            assert(file_blk(v, n2, j) == file_blk(v, n, j));
        }
        assert forall|i: int, j: int|
            #![trigger on_walk(v, n2, j, file_blk(v, n2, i))]
            lo <= i < hi && lo <= j < hi && file_blk(v, n2, i) != 0 implies !on_walk(v, n2, j, file_blk(v, n2, i)) by {
            assert(file_blk(v, n2, i) == file_blk(v, n, i));
            assert(file_blk(v, n2, j) == file_blk(v, n, j));
            assert(!on_walk(v, n, j, file_blk(v, n, i)));
        }
        assert forall|j: int| lo <= j < hi && j >= 524 implies #[trigger] roles_apart(v, n2, lo, j) by {
            assert(file_blk(v, n2, j) == file_blk(v, n, j));
            assert(roles_apart(v, n, lo, j));
        }
        assert forall|i: int, j: int|
            #![trigger second_table(v, n2, i), second_table(v, n2, j)]
            lo <= i < hi && lo <= j < hi && i >= 524 && j >= 524 && (i - 524) / 512 != (j - 524) / 512 implies second_table(
                v,
                n2,
                i,
            ) != second_table(v, n2, j) by {
            assert(file_blk(v, n2, i) == file_blk(v, n, i));
            assert(file_blk(v, n2, j) == file_blk(v, n, j));
        }
    }
    if holds_prefix(v, n, offset, src, m) {
        assert forall|q: int| offset <= q < offset + m implies #[trigger] file_byte(v, n2, q) == src[q - offset]
            && byte_known(v, n2, q) && file_blk(v, n2, q / 4096) != 0 by {
            assert(file_byte(v, n, q) == src[q - offset]);
            assert(file_blk(v, n2, q / 4096) == file_blk(v, n, q / 4096));
        }
        assert(holds_prefix(v, n2, offset, src, m) == (forall|q: int|
            offset <= q < offset + m ==> #[trigger] file_byte(v, n2, q) == src[q - offset] && byte_known(v, n2, q)
                && file_blk(v, n2, q / 4096) != 0));
    }
}

/// One step of a write over a sound range: the data block `b` of file
/// block `k` (found in place, or free and just put in its slot) receives
/// `len` bytes of `src` from `pos` on. The range stays sound, and the inode
/// then holds `src` up to `pos + len`.
#[verifier::rlimit(40)]
#[verifier::spinoff_prover]
pub proof fn lemma_write_chunk(
    v: Map<u64, Seq<u8>>,
    v1: Map<u64, Seq<u8>>,
    v2: Map<u64, Seq<u8>>,
    n: RawINode,
    n1: RawINode,
    start: u64,
    ds: int,
    nblks: int,
    hi: int,
    offset: int,
    src: Seq<u8>,
    pos: int,
    len: int,
    k: int,
    b: u64,
)
    requires
        range_sound(v, n, start, ds, nblks, offset / 4096, hi),
        forall|x: u64| #[trigger] v.dom().contains(x) ==> v[x].len() == 4096,
        holds_prefix(v, n, offset, src, pos),
        0 <= offset,
        0 <= pos,
        0 < len,
        k == (offset + pos) / 4096,
        k < hi,
        (offset + pos) % 4096 + len <= 4096,
        pos + len <= src.len(),
        pos > 0 ==> (offset + pos) % 4096 == 0,
        (file_blk(v, n, k) != 0 && b == file_blk(v, n, k) && n1 == n && v1 == v) || (file_blk(v, n, k) == 0 && ds
            <= b < ds + nblks && (v.dom().contains(bit_blk(start, b - ds)) ==> !bit_set(v, start, b - ds))
            && alloc_into(v, v1, n, n1, k, b, start, ds)),
        written(v1, v2, b, (offset + pos) % 4096, src.subrange(pos, pos + len)),
    ensures
        range_sound(v2, n1, start, ds, nblks, offset / 4096, hi),
        holds_prefix(v2, n1, offset, src, pos + len),
        forall|x: u64| #[trigger] v.dom().contains(x) && x < start ==> v2.dom().contains(x) && v2[x] == v[x],
        forall|j: int| offset / 4096 <= j < hi && j != k ==> #[trigger] file_blk(v2, n1, j) == file_blk(v, n, j),
        forall|j: int|
            offset / 4096 <= j < hi && j != k && file_blk(v, n, j) != 0 && v.dom().contains(file_blk(v, n, j))
                ==> v2[#[trigger] file_blk(v, n, j)] == v[file_blk(v, n, j)],
        file_blk(v2, n1, k) == b,
        file_blk(v, n, k) != 0 && v.dom().contains(b) ==> v2[b] == splice(
            v[b],
            (offset + pos) % 4096,
            src.subrange(pos, pos + len),
        ),
        forall|x: u64| #[trigger] v.dom().contains(x) ==> v2.dom().contains(x),
        forall|j: int| offset / 4096 <= j < hi && j >= 524 ==> #[trigger] second_table(v2, n1, j) == second_table(v, n, j),
        forall|x: u64|
            #[trigger] v.dom().contains(x) && x >= ds && x != b && !on_walk(v, n, k, x) ==> v2[x] == v[x],
        forall|x: u64| #[trigger] blk_marked(v, start, ds, nblks, x) ==> blk_marked(v2, start, ds, nblks, x),
        n1.indirect_blk_ptr == n.indirect_blk_ptr,
        n1.double_indirect_blk_ptr == n.double_indirect_blk_ptr,
        b == file_blk(v, n, k) || !blk_marked(v, start, ds, nblks, b),
{
    let lo = offset / 4096;
    let off = offset + pos;
    let boff = off % 4096;
    assert(lo <= k) by (nonlinear_arith)
        requires
            0 <= offset <= off,
            lo == offset / 4096,
            k == off / 4096,
    ;
    let fresh = file_blk(v, n, k) == 0;
    if !fresh {
        assert(blk_marked(v, start, ds, nblks, file_blk(v, n, k)));
        assert forall|j: int| lo <= j < hi implies !#[trigger] on_walk(v, n, j, b) by {
            assert(!on_walk(v, n, j, file_blk(v, n, k)));
        }
        lemma_sound_frame(v, v2, n, start, ds, nblks, lo, hi, Some(b));
    } else {
        lemma_sound_alloc(v, v1, n, n1, start, ds, nblks, lo, hi, k, b);
        assert(file_blk(v1, n1, k) == b);
        assert(blk_marked(v1, start, ds, nblks, file_blk(v1, n1, k)));
        assert forall|j: int| lo <= j < hi implies !#[trigger] on_walk(v1, n1, j, b) by {
            assert(!on_walk(v1, n1, j, file_blk(v1, n1, k)));
        }
        lemma_sound_frame(v1, v2, n1, start, ds, nblks, lo, hi, Some(b));
    }
    assert(file_blk(v2, n1, k) == b);
    assert(walk_marked(v2, n1, start, ds, nblks, k));
    assert forall|q: int| offset <= q < offset + (pos + len) implies #[trigger] file_byte(v2, n1, q) == src[q
        - offset] && byte_known(v2, n1, q) && file_blk(v2, n1, q / 4096) != 0 by {
        if q < off {
            let j = q / 4096;
            assert(lo <= j < k) by (nonlinear_arith)
                requires
                    0 <= offset <= q < off,
                    off % 4096 == 0,
                    lo == offset / 4096,
                    k == off / 4096,
                    j == q / 4096,
            ;
            assert(file_byte(v, n, q) == src[q - offset]);
            let d = file_blk(v, n, j);
            assert(v.dom().contains(d));
            assert(d != 0);
            if !fresh {
                assert(file_blk(v2, n, j) == d);
                assert(d != file_blk(v, n, k));
            } else {
                assert(file_blk(v1, n1, j) == d);
                assert(v1[d] == v[d]);
                assert(file_blk(v2, n1, j) == file_blk(v1, n1, j));
                assert(d != file_blk(v1, n1, k));
            }
            assert(v2[d] == v[d]);
            assert(walk_marked(v2, n1, start, ds, nblks, j));
        } else {
            assert(q / 4096 == k && q % 4096 == boff + (q - off)) by (nonlinear_arith)
                requires
                    0 <= off <= q < off + len,
                    boff == off % 4096,
                    boff + len <= 4096,
                    k == off / 4096,
            ;
            assert(v2[b].subrange(boff, boff + len) == src.subrange(pos, pos + len));
            assert(v2[b][boff + (q - off)] == v2[b].subrange(boff, boff + len)[q - off]);
        }
    }
    lemma_holds_prefix_intro(v2, n1, offset, src, pos + len);
    assert forall|j: int|
        lo <= j < hi && j != k && file_blk(v, n, j) != 0 && v.dom().contains(file_blk(v, n, j)) implies v2[#[trigger] file_blk(
            v,
            n,
            j,
        )] == v[file_blk(v, n, j)] by {
        let d = file_blk(v, n, j);
        if !fresh {
            assert(file_blk(v2, n, j) == d);
            assert(d != file_blk(v, n, k));
        } else {
            assert(file_blk(v1, n1, j) == d);
            assert(v1[d] == v[d]);
            assert(file_blk(v2, n1, j) == file_blk(v1, n1, j));
            assert(d != file_blk(v1, n1, k));
        }
    }
    assert forall|j: int| lo <= j < hi && j != k implies #[trigger] file_blk(v2, n1, j) == file_blk(v, n, j) by {
        if fresh {
            assert(file_blk(v1, n1, j) == file_blk(v, n, j));
            assert(file_blk(v2, n1, j) == file_blk(v1, n1, j));
        } else {
            assert(file_blk(v2, n, j) == file_blk(v, n, j));
        }
    }
    assert forall|x: u64| #[trigger] v.dom().contains(x) implies v2.dom().contains(x) by {
        if fresh {
            assert(v1.dom().contains(x));
        }
    }
    assert forall|x: u64| #[trigger] v.dom().contains(x) && x < start implies v2.dom().contains(x) && v2[x] == v[x] by {
        if fresh {
            assert(v1.dom().contains(x) && v1[x] == v[x]);
        }
        assert(blk_marked(v2, start, ds, nblks, b));
    }
    assert forall|j: int| lo <= j < hi && j >= 524 implies #[trigger] second_table(v2, n1, j) == second_table(v, n, j) by {
        if fresh {
            assert(second_table(v1, n1, j) == second_table(v, n, j));
        }
    }
    assert forall|x: u64| #[trigger] v.dom().contains(x) && x >= ds && x != b && !on_walk(v, n, k, x) implies v2[x] == v[x] by {
        if fresh {
            assert(v1.dom().contains(x) && v1[x] == v[x]);
        }
    }
    assert forall|x: u64| #[trigger] blk_marked(v, start, ds, nblks, x) implies blk_marked(v2, start, ds, nblks, x) by {
        if fresh {
            assert(blk_marked(v1, start, ds, nblks, x));
        }
    }
}

/// Reading blocks in, and writing one block before the data region, keeps
/// what a sound range holds.
pub proof fn lemma_prefix_frame(
    v: Map<u64, Seq<u8>>,
    v2: Map<u64, Seq<u8>>,
    n: RawINode,
    start: u64,
    ds: int,
    nblks: int,
    hi: int,
    offset: int,
    src: Seq<u8>,
    m: int,
    c: u64,
)
    requires
        range_sound(v, n, start, ds, nblks, offset / 4096, hi),
        holds_prefix(v, n, offset, src, m),
        0 <= offset,
        m > 0 ==> (offset + m - 1) / 4096 < hi,
        c < ds,
        forall|x: u64| #[trigger] v.dom().contains(x) ==> v2.dom().contains(x) && (x != c ==> v2[x] == v[x]),
    ensures
        holds_prefix(v2, n, offset, src, m),
{
    assert forall|q: int| offset <= q < offset + m implies #[trigger] file_byte(v2, n, q) == src[q - offset]
        && byte_known(v2, n, q) && file_blk(v2, n, q / 4096) != 0 by {
        let j = q / 4096;
        assert(offset / 4096 <= j < hi) by (nonlinear_arith)
            requires
                0 <= offset <= q < offset + m,
                (offset + m - 1) / 4096 < hi,
                j == q / 4096,
        ;
        assert(file_byte(v, n, q) == src[q - offset]);
        assert(walk_marked(v, n, start, ds, nblks, j));
        if 12 <= j < 524 {
            assert(v2[n.indirect_blk_ptr] == v[n.indirect_blk_ptr]);
        } else if j >= 524 {
            assert(v2[n.double_indirect_blk_ptr] == v[n.double_indirect_blk_ptr]);
            assert(second_table(v2, n, j) == second_table(v, n, j));
            assert(v2[second_table(v, n, j)] == v[second_table(v, n, j)]);
        }
        let d = file_blk(v, n, j);
        assert(file_blk(v2, n, j) == d);
        assert(blk_marked(v, start, ds, nblks, d));
        assert(v2[d] == v[d]);
    }
    lemma_holds_prefix_intro(v2, n, offset, src, m);
}

/// What a write over a sound range returned it wrote, a later read of the
/// same inode at the same offset gives back, byte for byte: the read's
/// result agrees with the file's content after any further blocks came
/// into the cache, and the written prefix held that content.
pub proof fn lemma_read_back(
    vw: Map<u64, Seq<u8>>,
    vr: Map<u64, Seq<u8>>,
    n: RawINode,
    offset: int,
    src: Seq<u8>,
    m: int,
    dst: Seq<u8>,
    k: int,
)
    requires
        holds_prefix(vw, n, offset, src, m),
        extends(vw, vr),
        0 <= offset,
        0 <= k <= m,
        k <= dst.len(),
        forall|p: int| 0 <= p < k ==> #[trigger] dst[p] == file_byte(vr, n, offset + p),
    ensures
        forall|p: int| 0 <= p < k ==> #[trigger] dst[p] == src[p],
{
    assert forall|p: int| 0 <= p < k implies #[trigger] dst[p] == src[p] by {
        let q = offset + p;
        assert(file_byte(vw, n, q) == src[q - offset]);
        lemma_extends_keeps_byte_pub(vw, vr, n, q);
    }
}

/// A part of a sound range is sound.
pub proof fn lemma_sound_sub(
    v: Map<u64, Seq<u8>>,
    n: RawINode,
    start: u64,
    ds: int,
    nblks: int,
    lo: int,
    hi: int,
    lo2: int,
    hi2: int,
)
    requires
        range_sound(v, n, start, ds, nblks, lo, hi),
        lo <= lo2,
        hi2 <= hi,
    ensures
        range_sound(v, n, start, ds, nblks, lo2, hi2),
{
    assert forall|j: int| lo2 <= j < hi2 && j >= 524 implies #[trigger] roles_apart(v, n, lo2, j) by {
        assert(roles_apart(v, n, lo, j));
    }
}

/// The blocks a write of `len` bytes at `offset` reaches lie among those a
/// write from the start of the file up to `end` reaches, when the write
/// starts within the largest file size and ends by `end`.
pub proof fn lemma_write_hi_mono(offset: int, len: int, end: int)
    requires
        0 <= offset <= MAX_FILE_SIZE,
        0 <= len,
        offset + len <= end,
    ensures
        write_hi(offset, len) <= write_hi(0, end),
{
    let max = MAX_FILE_SIZE as int;
    let wl = write_len(offset, len);
    let we = write_len(0, end);
    assert(we == if end > max { max } else { end });
    if wl > 0 {
        assert(offset + wl <= we);
        assert((offset + wl - 1) / 4096 <= (we - 1) / 4096) by (nonlinear_arith)
            requires
                0 < offset + wl <= we,
        ;
    } else if we <= 0 {
        assert(end <= 0);
        assert(offset == 0);
        assert(write_hi(0, end) == 0);
    } else {
        assert(offset / 4096 <= (we - 1) / 4096 + 1) by (nonlinear_arith)
            requires
                0 <= offset <= end,
                we > 0,
                we == (if end > max { max } else { end }),
                max == 1_075_888_128,
                offset <= max,
        ;
    }
}

/// The tables on the way to file block `j` of inode `n` exist, are cached
/// and lie in the data region from `ds` on, and the doubly indirect table
/// is none of the others that the range from `lo` reaches.
pub open spec fn table_placed(view: Map<u64, Seq<u8>>, n: RawINode, ds: int, lo: int, j: int) -> bool {
    &&& tables_ready(view, n, j)
    &&& 12 <= j < 524 ==> n.indirect_blk_ptr >= ds
    &&& j >= 524 ==> n.double_indirect_blk_ptr >= ds && second_table(view, n, j) >= ds
        && n.double_indirect_blk_ptr != second_table(view, n, j) && (lo < 524 ==> n.indirect_blk_ptr
        != n.double_indirect_blk_ptr)
}

/// The tables on the way to file blocks `lo` up to `hi` of inode `n` are
/// placed (see `table_placed`), and the data bitmap at `start` covers the
/// `nblks` data blocks from `ds` on and lies before them.
pub open spec fn tables_placed(
    view: Map<u64, Seq<u8>>,
    n: RawINode,
    start: u64,
    ds: int,
    nblks: int,
    lo: int,
    hi: int,
) -> bool {
    &&& start < ds
    &&& nblks <= (ds - start) * 32768
    &&& forall|j: int| lo <= j < hi ==> #[trigger] table_placed(view, n, ds, lo, j)
}

/// The tables of a part of a sound range are placed.
pub proof fn lemma_sound_placed(
    v: Map<u64, Seq<u8>>,
    n: RawINode,
    start: u64,
    ds: int,
    nblks: int,
    lo: int,
    hi: int,
    lo2: int,
    hi2: int,
)
    requires
        range_sound(v, n, start, ds, nblks, lo, hi),
        lo <= lo2,
        hi2 <= hi,
    ensures
        tables_placed(v, n, start, ds, nblks, lo2, hi2),
{
    assert forall|j: int| lo2 <= j < hi2 implies #[trigger] table_placed(v, n, ds, lo2, j) by {
        assert(walk_marked(v, n, start, ds, nblks, j));
        if j >= 524 {
            assert(roles_apart(v, n, lo, j));
        }
    }
}

/// Reading blocks in, and writing at most one block `c` other than the
/// doubly indirect table, keeps the tables placed where they were.
pub proof fn lemma_placed_frame(
    v: Map<u64, Seq<u8>>,
    v2: Map<u64, Seq<u8>>,
    n: RawINode,
    n2: RawINode,
    start: u64,
    ds: int,
    nblks: int,
    lo: int,
    hi: int,
    c: Option<u64>,
)
    requires
        tables_placed(v, n, start, ds, nblks, lo, hi),
        n2.indirect_blk_ptr == n.indirect_blk_ptr,
        n2.double_indirect_blk_ptr == n.double_indirect_blk_ptr,
        c matches Some(b) ==> (b != n.double_indirect_blk_ptr || hi <= 524),
        forall|x: u64| #[trigger] v.dom().contains(x) ==> v2.dom().contains(x) && (c != Some(x) ==> v2[x] == v[x]),
    ensures
        tables_placed(v2, n2, start, ds, nblks, lo, hi),
        forall|j: int| lo <= j < hi && j >= 524 ==> #[trigger] second_table(v2, n2, j) == second_table(v, n, j),
{
    assert forall|j: int| lo <= j < hi implies #[trigger] table_placed(v2, n2, ds, lo, j) && (j >= 524
        ==> second_table(v2, n2, j) == second_table(v, n, j)) by {
        assert(table_placed(v, n, ds, lo, j));
        if j >= 524 {
            assert(v2[n.double_indirect_blk_ptr] == v[n.double_indirect_blk_ptr]);
        }
    }
    assert forall|j: int| lo <= j < hi && j >= 524 implies #[trigger] second_table(v2, n2, j) == second_table(v, n, j) by {
        assert(table_placed(v2, n2, ds, lo, j));
    }
}

/// Every cached block before the data bitmap at `start` stays as it was.
pub open spec fn low_kept(v: Map<u64, Seq<u8>>, v2: Map<u64, Seq<u8>>, start: u64) -> bool {
    forall|x: u64| #[trigger] v.dom().contains(x) && x < start ==> v2.dom().contains(x) && v2[x] == v[x]
}

/// Keeping the blocks before the data bitmap twice keeps them.
pub proof fn lemma_low_kept_trans(a: Map<u64, Seq<u8>>, b: Map<u64, Seq<u8>>, c: Map<u64, Seq<u8>>, start: u64)
    requires
        low_kept(a, b, start),
        low_kept(b, c, start),
    ensures
        low_kept(a, c, start),
{
    assert forall|x: u64| #[trigger] a.dom().contains(x) && x < start implies c.dom().contains(x) && c[x] == a[x] by {
        assert(b.dom().contains(x) && b[x] == a[x]);
    }
}

/// Changing a bit of the bitmap at `start` keeps the blocks before it.
pub proof fn lemma_flip_low(v: Map<u64, Seq<u8>>, v2: Map<u64, Seq<u8>>, start: u64, i: int, val: bool)
    requires
        bit_flipped(v, v2, start, i, val),
        0 <= i,
        start + i / 32768 <= u64::MAX,
    ensures
        low_kept(v, v2, start),
{
    assert(bit_blk(start, i) >= start);
}

/// Reading blocks in keeps the blocks before the data bitmap.
pub proof fn lemma_extends_low(v: Map<u64, Seq<u8>>, v2: Map<u64, Seq<u8>>, start: u64)
    requires
        extends(v, v2),
    ensures
        low_kept(v, v2, start),
{
}

/// The number of file blocks that `size` bytes reach into.
pub open spec fn blocks_of(size: int) -> int {
    if size <= 0 {
        0
    } else {
        (size - 1) / 4096 + 1
    }
}

/// Every byte of file blocks `lo` up to `hi` of inode `n0` in `v0` that
/// lies in a block in place and cached, outside the `m` bytes from
/// `offset`, reads in `v` (as inode `n`) as it did.
pub open spec fn kept_outside(
    v0: Map<u64, Seq<u8>>,
    v: Map<u64, Seq<u8>>,
    n0: RawINode,
    n: RawINode,
    offset: int,
    m: int,
    lo: int,
    hi: int,
) -> bool {
    forall|q: int|
        lo <= q / 4096 < hi && !(offset <= q < offset + m) && file_blk(v0, n0, q / 4096) != 0 && byte_known(v0, n0, q)
            ==> #[trigger] byte_kept(v0, v, n0, n, q)
}

/// Byte `q` of inode `n` reads in cached blocks of `v` as byte `q` of
/// inode `n0` did in `v0`.
pub open spec fn byte_kept(v0: Map<u64, Seq<u8>>, v: Map<u64, Seq<u8>>, n0: RawINode, n: RawINode, q: int) -> bool {
    byte_known(v, n, q) && file_byte(v, n, q) == file_byte(v0, n0, q)
}

/// Every pointer of file blocks `lo` up to `hi` of inode `n0` in `v0` that
/// was in place still points where it did.
pub open spec fn ptrs_kept(v0: Map<u64, Seq<u8>>, n0: RawINode, v: Map<u64, Seq<u8>>, n: RawINode, lo: int, hi: int) -> bool {
    forall|j: int| lo <= j < hi && file_blk(v0, n0, j) != 0 ==> #[trigger] file_blk(v, n, j) == file_blk(v0, n0, j)
}

/// One step of a write over a sound range keeps what it did not write, and
/// the pointers that were in place.
pub proof fn lemma_keep_step(
    v0: Map<u64, Seq<u8>>,
    n0: RawINode,
    v: Map<u64, Seq<u8>>,
    n: RawINode,
    v2: Map<u64, Seq<u8>>,
    n1: RawINode,
    start: u64,
    ds: int,
    nblks: int,
    offset: int,
    src: Seq<u8>,
    pos: int,
    len: int,
    lo: int,
    hi: int,
    k: int,
    b: u64,
)
    requires
        kept_outside(v0, v, n0, n, offset, pos, lo, hi),
        ptrs_kept(v0, n0, v, n, lo, hi),
        range_sound(v2, n1, start, ds, nblks, lo, hi),
        forall|x: u64| #[trigger] v.dom().contains(x) ==> v[x].len() == 4096,
        0 <= offset,
        0 <= pos,
        0 < len,
        k == (offset + pos) / 4096,
        lo <= k < hi,
        (offset + pos) % 4096 + len <= 4096,
        pos + len <= src.len(),
        file_blk(v, n, k) != 0 ==> b == file_blk(v, n, k),
        forall|j: int| lo <= j < hi && j != k ==> #[trigger] file_blk(v2, n1, j) == file_blk(v, n, j),
        forall|j: int|
            lo <= j < hi && j != k && file_blk(v, n, j) != 0 && v.dom().contains(file_blk(v, n, j))
                ==> v2[#[trigger] file_blk(v, n, j)] == v[file_blk(v, n, j)],
        file_blk(v2, n1, k) == b,
        file_blk(v, n, k) != 0 && v.dom().contains(b) ==> v2[b] == splice(
            v[b],
            (offset + pos) % 4096,
            src.subrange(pos, pos + len),
        ),
        forall|x: u64| #[trigger] v.dom().contains(x) ==> v2.dom().contains(x),
    ensures
        kept_outside(v0, v2, n0, n1, offset, pos + len, lo, hi),
        ptrs_kept(v0, n0, v2, n1, lo, hi),
{
    let off = offset + pos;
    let boff = off % 4096;
    assert forall|q: int|
        lo <= q / 4096 < hi && !(offset <= q < offset + (pos + len)) && file_blk(v0, n0, q / 4096) != 0 && byte_known(
            v0,
            n0,
            q,
        ) implies #[trigger] byte_kept(v0, v2, n0, n1, q) by {
        let j = q / 4096;
        assert(byte_kept(v0, v, n0, n, q));
        let d = file_blk(v0, n0, j);
        assert(file_blk(v, n, j) == d);
        assert(v.dom().contains(d));
        assert(walk_marked(v2, n1, start, ds, nblks, j));
        if j != k {
            assert(file_blk(v2, n1, j) == d);
            assert(v2[d] == v[d]);
        } else {
            assert(b == d);
            assert(!(boff <= q % 4096 < boff + len)) by (nonlinear_arith)
                requires
                    !(off <= q < off + len),
                    q / 4096 == off / 4096,
                    boff == off % 4096,
                    0 <= off,
                    0 <= q,
            ;
            let sp = src.subrange(pos, pos + len);
            assert(v2[b] == splice(v[b], boff, sp));
            if q % 4096 < boff {
                assert(v2[b][q % 4096] == v[b][q % 4096]);
            } else {
                assert(v2[b][q % 4096] == v[b].subrange(boff + len, 4096)[q % 4096 - boff - len]);
            }
        }
    }
    assert forall|j: int| lo <= j < hi && file_blk(v0, n0, j) != 0 implies #[trigger] file_blk(v2, n1, j) == file_blk(
        v0,
        n0,
        j,
    ) by {
        assert(file_blk(v, n, j) == file_blk(v0, n0, j));
    }
}

/// Two inodes with the same block pointers hold the same bytes.
pub proof fn lemma_keep_same_pointers(
    v0: Map<u64, Seq<u8>>,
    n0: RawINode,
    v: Map<u64, Seq<u8>>,
    n: RawINode,
    n2: RawINode,
    offset: int,
    m: int,
    lo: int,
    hi: int,
)
    requires
        n2.direct_blk_ptrs == n.direct_blk_ptrs,
        n2.indirect_blk_ptr == n.indirect_blk_ptr,
        n2.double_indirect_blk_ptr == n.double_indirect_blk_ptr,
        kept_outside(v0, v, n0, n, offset, m, lo, hi),
        ptrs_kept(v0, n0, v, n, lo, hi),
    ensures
        kept_outside(v0, v, n0, n2, offset, m, lo, hi),
        ptrs_kept(v0, n0, v, n2, lo, hi),
{
    assert forall|j: int| #[trigger] file_blk(v, n2, j) == file_blk(v, n, j) && walk_known(v, n2, j) == walk_known(
        v,
        n,
        j,
    ) by {}
    assert forall|q: int|
        lo <= q / 4096 < hi && !(offset <= q < offset + m) && file_blk(v0, n0, q / 4096) != 0 && byte_known(v0, n0, q)
            implies #[trigger] byte_kept(v0, v, n0, n2, q) by {
        assert(byte_kept(v0, v, n0, n, q));
        assert(file_blk(v, n2, q / 4096) == file_blk(v, n, q / 4096));
    }
    assert forall|j: int| lo <= j < hi && file_blk(v0, n0, j) != 0 implies #[trigger] file_blk(v, n2, j) == file_blk(
        v0,
        n0,
        j,
    ) by {
        assert(file_blk(v, n2, j) == file_blk(v, n, j));
    }
}

/// Reading blocks in first keeps what a write kept.
pub proof fn lemma_kept_extends(
    a: Map<u64, Seq<u8>>,
    v0: Map<u64, Seq<u8>>,
    v: Map<u64, Seq<u8>>,
    n0: RawINode,
    n: RawINode,
    offset: int,
    m: int,
    lo: int,
    hi: int,
)
    requires
        extends(a, v0),
        0 <= lo,
        kept_outside(v0, v, n0, n, offset, m, lo, hi),
    ensures
        kept_outside(a, v, n0, n, offset, m, lo, hi),
{
    assert forall|q: int|
        lo <= q / 4096 < hi && !(offset <= q < offset + m) && file_blk(a, n0, q / 4096) != 0 && byte_known(a, n0, q)
            implies #[trigger] byte_kept(a, v, n0, n, q) by {
        assert(q >= 0) by (nonlinear_arith)
            requires
                0 <= lo <= q / 4096,
        ;
        lemma_extends_keeps_byte_pub(a, v0, n0, q);
        assert(byte_kept(v0, v, n0, n, q));
    }
}

/// Writing a block before the data region keeps what a write over a sound
/// range kept.
pub proof fn lemma_kept_frame(
    v0: Map<u64, Seq<u8>>,
    n0: RawINode,
    vw: Map<u64, Seq<u8>>,
    nw: RawINode,
    vf: Map<u64, Seq<u8>>,
    start: u64,
    ds: int,
    nblks: int,
    offset: int,
    m: int,
    lo: int,
    hi: int,
    c: u64,
)
    requires
        kept_outside(v0, vw, n0, nw, offset, m, lo, hi),
        ptrs_kept(v0, n0, vw, nw, lo, hi),
        range_sound(vw, nw, start, ds, nblks, lo, hi),
        c < ds,
        forall|x: u64| #[trigger] vw.dom().contains(x) ==> vf.dom().contains(x) && (x != c ==> vf[x] == vw[x]),
    ensures
        kept_outside(v0, vf, n0, nw, offset, m, lo, hi),
{
    assert forall|q: int|
        lo <= q / 4096 < hi && !(offset <= q < offset + m) && file_blk(v0, n0, q / 4096) != 0 && byte_known(v0, n0, q)
            implies #[trigger] byte_kept(v0, vf, n0, nw, q) by {
        let j = q / 4096;
        assert(byte_kept(v0, vw, n0, nw, q));
        assert(walk_marked(vw, nw, start, ds, nblks, j));
        if 12 <= j < 524 {
            assert(vf[nw.indirect_blk_ptr] == vw[nw.indirect_blk_ptr]);
        } else if j >= 524 {
            assert(vf[nw.double_indirect_blk_ptr] == vw[nw.double_indirect_blk_ptr]);
            assert(second_table(vf, nw, j) == second_table(vw, nw, j));
            assert(vf[second_table(vw, nw, j)] == vw[second_table(vw, nw, j)]);
        }
        let d = file_blk(vw, nw, j);
        assert(d == file_blk(v0, n0, j));
        assert(file_blk(vf, nw, j) == d);
        assert(blk_marked(vw, start, ds, nblks, d));
        assert(vf[d] == vw[d]);
    }
}

/// Clearing the bit of marked block `b` keeps every other marked block
/// marked, and the blocks of the data region as they were.
proof fn lemma_unflip_marks(
    v: Map<u64, Seq<u8>>,
    v1: Map<u64, Seq<u8>>,
    start: u64,
    ds: int,
    nblks: int,
    b: u64,
)
    requires
        start < ds,
        nblks <= (ds - start) * 32768,
        ds <= b < ds + nblks,
        bit_flipped(v, v1, start, b - ds, false),
    ensures
        forall|x: u64| #[trigger] blk_marked(v, start, ds, nblks, x) && x != b ==> blk_marked(v1, start, ds, nblks, x),
        forall|x: u64| #[trigger] v.dom().contains(x) ==> v1.dom().contains(x) && (x >= ds || x < start ==> v1[x] == v[x]),
{
    lemma_bitmap_before_data(start, ds, nblks, b);
    assert(bit_blk(start, b - ds) >= start);
    assert forall|x: u64| #[trigger] blk_marked(v, start, ds, nblks, x) && x != b implies blk_marked(
        v1,
        start,
        ds,
        nblks,
        x,
    ) by {
        lemma_bitmap_before_data(start, ds, nblks, x);
        lemma_flip_then_test(v, v1, start, b - ds, false, x - ds);
    }
}

/// Freeing the data block of the last file block `k` of a sound range
/// from 0 leaves the range up to `k` sound, with every pointer there and
/// every block in use there as it was.
#[verifier::rlimit(60)]
pub proof fn lemma_sound_free(
    v: Map<u64, Seq<u8>>,
    v2: Map<u64, Seq<u8>>,
    n: RawINode,
    n2: RawINode,
    start: u64,
    ds: int,
    nblks: int,
    k: int,
    b: u64,
)
    requires
        range_sound(v, n, start, ds, nblks, 0, k + 1),
        0 <= k,
        file_blk(v, n, k) == b,
        ds <= b < ds + nblks,
        freed_from(v, v2, n, n2, k, b, start, ds),
        forall|x: u64| #[trigger] v.dom().contains(x) ==> v[x].len() == 4096,
    ensures
        range_sound(v2, n2, start, ds, nblks, 0, k),
        forall|j: int| 0 <= j < k ==> #[trigger] file_blk(v2, n2, j) == file_blk(v, n, j),
        forall|x: u64| #[trigger] v.dom().contains(x) ==> v2.dom().contains(x) && (x < start ==> v2[x] == v[x]),
        forall|j: int|
            0 <= j < k && file_blk(v, n, j) != 0 && v.dom().contains(file_blk(v, n, j)) ==> v2[#[trigger] file_blk(
                v,
                n,
                j,
            )] == v[file_blk(v, n, j)],
        forall|j: int| 0 <= j < k && j >= 524 ==> #[trigger] second_table(v2, n2, j) == second_table(v, n, j),
        forall|x: u64| #[trigger] v.dom().contains(x) && x >= ds && !on_walk(v, n, k, x) ==> v2[x] == v[x],
        forall|x: u64| #[trigger] blk_marked(v, start, ds, nblks, x) && x != b ==> blk_marked(v2, start, ds, nblks, x),
{
    let v1 = choose|v1: Map<u64, Seq<u8>>| #[trigger]
        bit_flipped(v, v1, start, b - ds, false) && match slot_of(v, n, k) {
            BlkSlot::Direct(_) => v2 == v1,
            BlkSlot::Table(t, i) => written(v1, v2, t, 8 * i, le_bytes(0, 8)),
        };
    lemma_unflip_marks(v, v1, start, ds, nblks, b);
    assert(walk_marked(v, n, start, ds, nblks, k));
    let t: u64 = match slot_of(v, n, k) {
        BlkSlot::Direct(_) => 0,
        BlkSlot::Table(t, _) => t,
    };
    let si: int = match slot_of(v, n, k) {
        BlkSlot::Direct(_) => 0,
        BlkSlot::Table(_, i) => i as int,
    };
    if k >= 12 {
        assert(on_walk(v, n, k, t));
        assert(blk_marked(v, start, ds, nblks, t));
        assert(v.dom().contains(t));
        lemma_write_keeps_marks(v1, v2, start, ds, nblks, t);
        assert(v1[t] == v[t]);
        assert(0 <= si < 512);
        lemma_le_bytes_len(0, 8);
    } else {
        assert(v2 == v1);
    }
    assert forall|x: u64| #[trigger] v.dom().contains(x) implies v2.dom().contains(x) && ((x >= ds && (k < 12 || x
        != t)) || x < start ==> v2[x] == v[x]) by {
        assert(v1.dom().contains(x));
    }
    assert forall|x: u64| #[trigger] blk_marked(v, start, ds, nblks, x) && x != b implies blk_marked(
        v2,
        start,
        ds,
        nblks,
        x,
    ) by {
        assert(blk_marked(v1, start, ds, nblks, x));
    }
    assert forall|j: int| 0 <= j < k implies #[trigger] walk_marked(v2, n2, start, ds, nblks, j) && file_blk(
        v2,
        n2,
        j,
    ) == file_blk(v, n, j) && (j >= 524 ==> second_table(v2, n2, j) == second_table(v, n, j)) by {
        assert(walk_marked(v, n, start, ds, nblks, j));
        if j >= 524 {
            let d = n.double_indirect_blk_ptr;
            assert(k >= 524);
            assert(t == second_table(v, n, k));
            assert(roles_apart(v, n, 0, k));
            assert(v2[d] == v[d]);
            assert(second_table(v2, n2, j) == second_table(v, n, j));
            let st = second_table(v, n, j);
            if st == t {
                assert(second_table(v, n, k) == second_table(v, n, k));
                assert((j - 524) / 512 == (k - 524) / 512);
                assert((j - 524) % 512 != (k - 524) % 512);
                lemma_splice_outside(v1[t], 8 * si, le_bytes(0, 8), 8 * ((j - 524) % 512), 8);
            } else {
                assert(v2[st] == v[st]);
            }
            assert(!on_walk(v, n, j, b));
            assert(blk_marked(v2, start, ds, nblks, d));
            assert(blk_marked(v2, start, ds, nblks, st));
        } else if j >= 12 {
            let ind = n.indirect_blk_ptr;
            if k >= 12 && ind == t {
                if k >= 524 {
                    assert(roles_apart(v, n, 0, k));
                    assert(false);
                }
                lemma_splice_outside(v1[t], 8 * si, le_bytes(0, 8), 8 * (j - 12), 8);
            } else {
                assert(v2[ind] == v[ind]);
            }
            assert(!on_walk(v, n, j, b));
            assert(blk_marked(v2, start, ds, nblks, ind));
        } else {
            assert(n2.direct_blk_ptrs@[j] == n.direct_blk_ptrs@[j]);
        }
    }
    assert forall|j: int| 0 <= j < k implies #[trigger] file_blk(v2, n2, j) == file_blk(v, n, j) by {
        assert(walk_marked(v2, n2, start, ds, nblks, j));
    }
    assert forall|j: int| #![trigger file_blk(v2, n2, j)] 0 <= j < k && file_blk(v2, n2, j) != 0 implies blk_marked(
        v2,
        start,
        ds,
        nblks,
        file_blk(v2, n2, j),
    ) by {
        assert(file_blk(v2, n2, j) == file_blk(v, n, j));
        assert(blk_marked(v, start, ds, nblks, file_blk(v, n, j)));
        assert(file_blk(v, n, j) != file_blk(v, n, k));
    }
    assert forall|i: int, j: int|
        #![trigger file_blk(v2, n2, i), file_blk(v2, n2, j)]
        0 <= i < k && 0 <= j < k && i != j && file_blk(v2, n2, i) != 0 implies file_blk(v2, n2, i) != file_blk(
            v2,
            n2,
            j,
        ) by {
        assert(file_blk(v2, n2, i) == file_blk(v, n, i));
        assert(file_blk(v2, n2, j) == file_blk(v, n, j));
    }
    assert forall|i: int, j: int|
        #![trigger on_walk(v2, n2, j, file_blk(v2, n2, i))]
        0 <= i < k && 0 <= j < k && file_blk(v2, n2, i) != 0 implies !on_walk(v2, n2, j, file_blk(v2, n2, i)) by {
        assert(walk_marked(v2, n2, start, ds, nblks, j));
        assert(file_blk(v2, n2, i) == file_blk(v, n, i));
        assert(!on_walk(v, n, j, file_blk(v, n, i)));
    }
    assert forall|j: int| 0 <= j < k && j >= 524 implies #[trigger] roles_apart(v2, n2, 0, j) by {
        assert(walk_marked(v2, n2, start, ds, nblks, j));
        assert(roles_apart(v, n, 0, j));
    }
    assert forall|i: int, j: int|
        #![trigger second_table(v2, n2, i), second_table(v2, n2, j)]
        0 <= i < k && 0 <= j < k && i >= 524 && j >= 524 && (i - 524) / 512 != (j - 524) / 512 implies second_table(
            v2,
            n2,
            i,
        ) != second_table(v2, n2, j) by {
        assert(walk_marked(v2, n2, start, ds, nblks, i));
        assert(walk_marked(v2, n2, start, ds, nblks, j));
        assert(second_table(v, n, i) != second_table(v, n, j));
    }
    assert forall|j: int|
        0 <= j < k && file_blk(v, n, j) != 0 && v.dom().contains(file_blk(v, n, j)) implies v2[#[trigger] file_blk(
            v,
            n,
            j,
        )] == v[file_blk(v, n, j)] by {
        let d = file_blk(v, n, j);
        assert(blk_marked(v, start, ds, nblks, d));
        if k >= 12 {
            assert(!on_walk(v, n, k, file_blk(v, n, j)));
        }
    }
    assert forall|j: int| 0 <= j < k && j >= 524 implies #[trigger] second_table(v2, n2, j) == second_table(v, n, j) by {
        assert(walk_marked(v2, n2, start, ds, nblks, j));
    }
    assert forall|x: u64| #[trigger] v.dom().contains(x) && x >= ds && !on_walk(v, n, k, x) implies v2[x] == v[x] by {
        if k >= 12 {
            assert(on_walk(v, n, k, t));
        }
    }
}

/// Every cached block of the data region from `ds` on stays as it was.
pub open spec fn high_kept(v: Map<u64, Seq<u8>>, v2: Map<u64, Seq<u8>>, ds: int) -> bool {
    forall|x: u64| #[trigger] v.dom().contains(x) ==> v2.dom().contains(x) && (x >= ds ==> v2[x] == v[x])
}

/// The tables on the way to file blocks `lo` up to `hi` of inode `n`
/// exist, are cached and lie in the data region from `ds` on, and so do
/// the data blocks in place there.
pub open spec fn range_high(view: Map<u64, Seq<u8>>, n: RawINode, ds: int, lo: int, hi: int) -> bool {
    forall|j: int| lo <= j < hi ==> #[trigger] blk_high(view, n, ds, j)
}

/// The tables on the way to file block `j` exist, are cached and lie in
/// the data region from `ds` on, and so does its data block if in place.
pub open spec fn blk_high(view: Map<u64, Seq<u8>>, n: RawINode, ds: int, j: int) -> bool {
    &&& tables_ready(view, n, j)
    &&& 12 <= j < 524 ==> n.indirect_blk_ptr >= ds
    &&& j >= 524 ==> n.double_indirect_blk_ptr >= ds && second_table(view, n, j) >= ds
    &&& file_blk(view, n, j) != 0 ==> file_blk(view, n, j) >= ds
}

/// A sound range lies in the data region.
pub proof fn lemma_sound_high(
    v: Map<u64, Seq<u8>>,
    n: RawINode,
    start: u64,
    ds: int,
    nblks: int,
    lo: int,
    hi: int,
)
    requires
        range_sound(v, n, start, ds, nblks, lo, hi),
    ensures
        range_high(v, n, ds, lo, hi),
{
    assert forall|j: int| lo <= j < hi implies #[trigger] blk_high(v, n, ds, j) by {
        assert(walk_marked(v, n, start, ds, nblks, j));
        assert(file_blk(v, n, j) == file_blk(v, n, j));
    }
}

/// Two inodes with the same block pointers lie where the other lies.
pub proof fn lemma_high_same_pointers(v: Map<u64, Seq<u8>>, n: RawINode, n2: RawINode, ds: int, lo: int, hi: int)
    requires
        n2.direct_blk_ptrs == n.direct_blk_ptrs,
        n2.indirect_blk_ptr == n.indirect_blk_ptr,
        n2.double_indirect_blk_ptr == n.double_indirect_blk_ptr,
        range_high(v, n, ds, lo, hi),
    ensures
        range_high(v, n2, ds, lo, hi),
{
    assert forall|j: int| lo <= j < hi implies #[trigger] blk_high(v, n2, ds, j) by {
        assert(blk_high(v, n, ds, j));
        assert(file_blk(v, n2, j) == file_blk(v, n, j));
    }
}

/// Changing blocks before the data region keeps what file blocks there
/// held.
pub proof fn lemma_kept_high_frame(
    v0: Map<u64, Seq<u8>>,
    n0: RawINode,
    vw: Map<u64, Seq<u8>>,
    nw: RawINode,
    vf: Map<u64, Seq<u8>>,
    ds: int,
    offset: int,
    m: int,
    lo: int,
    hi: int,
)
    requires
        kept_outside(v0, vw, n0, nw, offset, m, lo, hi),
        ptrs_kept(v0, n0, vw, nw, lo, hi),
        range_high(vw, nw, ds, lo, hi),
        high_kept(vw, vf, ds),
    ensures
        kept_outside(v0, vf, n0, nw, offset, m, lo, hi),
        ptrs_kept(v0, n0, vf, nw, lo, hi),
        range_high(vf, nw, ds, lo, hi),
{
    assert forall|j: int| lo <= j < hi implies #[trigger] file_blk(vf, nw, j) == file_blk(vw, nw, j) && walk_known(
        vf,
        nw,
        j,
    ) && blk_high(vf, nw, ds, j) by {
        assert(blk_high(vw, nw, ds, j));
        if 12 <= j < 524 {
            assert(vf[nw.indirect_blk_ptr] == vw[nw.indirect_blk_ptr]);
        } else if j >= 524 {
            assert(vf[nw.double_indirect_blk_ptr] == vw[nw.double_indirect_blk_ptr]);
            assert(second_table(vf, nw, j) == second_table(vw, nw, j));
            assert(vf[second_table(vw, nw, j)] == vw[second_table(vw, nw, j)]);
        }
    }
    assert forall|q: int|
        lo <= q / 4096 < hi && !(offset <= q < offset + m) && file_blk(v0, n0, q / 4096) != 0 && byte_known(v0, n0, q)
            implies #[trigger] byte_kept(v0, vf, n0, nw, q) by {
        let j = q / 4096;
        assert(byte_kept(v0, vw, n0, nw, q));
        assert(file_blk(vf, nw, j) == file_blk(vw, nw, j));
        let d = file_blk(vw, nw, j);
        assert(d == file_blk(v0, n0, j));
        assert(blk_high(vw, nw, ds, j));
        assert(vf[d] == vw[d]);
    }
    assert forall|j: int| lo <= j < hi && file_blk(v0, n0, j) != 0 implies #[trigger] file_blk(vf, nw, j) == file_blk(
        v0,
        n0,
        j,
    ) by {
        assert(file_blk(vf, nw, j) == file_blk(vw, nw, j));
    }
    assert forall|j: int| lo <= j < hi implies #[trigger] blk_high(vf, nw, ds, j) by {
        assert(file_blk(vf, nw, j) == file_blk(vw, nw, j));
    }
}

/// Freeing file blocks past `kmax` (or reading blocks in) keeps what file
/// blocks up to `kmax` held.
pub proof fn lemma_kept_shrink(
    v0: Map<u64, Seq<u8>>,
    n0: RawINode,
    v: Map<u64, Seq<u8>>,
    n: RawINode,
    v2: Map<u64, Seq<u8>>,
    n2: RawINode,
    start: u64,
    ds: int,
    nblks: int,
    kmax: int,
    i: int,
)
    requires
        kept_outside(v0, v, n0, n, 0, 0, 0, kmax),
        ptrs_kept(v0, n0, v, n, 0, kmax),
        kmax <= i,
        range_sound(v2, n2, start, ds, nblks, 0, i),
        forall|j: int| 0 <= j < i ==> #[trigger] file_blk(v2, n2, j) == file_blk(v, n, j),
        forall|j: int|
            0 <= j < i && file_blk(v, n, j) != 0 && v.dom().contains(file_blk(v, n, j)) ==> v2[#[trigger] file_blk(
                v,
                n,
                j,
            )] == v[file_blk(v, n, j)],
        forall|x: u64| #[trigger] v.dom().contains(x) ==> v2.dom().contains(x),
    ensures
        kept_outside(v0, v2, n0, n2, 0, 0, 0, kmax),
        ptrs_kept(v0, n0, v2, n2, 0, kmax),
{
    assert forall|q: int|
        0 <= q / 4096 < kmax && !(0 <= q < 0 + 0) && file_blk(v0, n0, q / 4096) != 0 && byte_known(v0, n0, q)
            implies #[trigger] byte_kept(v0, v2, n0, n2, q) by {
        let j = q / 4096;
        assert(byte_kept(v0, v, n0, n, q));
        let d = file_blk(v, n, j);
        assert(d == file_blk(v0, n0, j));
        assert(file_blk(v2, n2, j) == d);
        assert(v2[d] == v[d]);
        assert(walk_marked(v2, n2, start, ds, nblks, j));
    }
    assert forall|j: int| 0 <= j < kmax && file_blk(v0, n0, j) != 0 implies #[trigger] file_blk(v2, n2, j) == file_blk(
        v0,
        n0,
        j,
    ) by {
        assert(file_blk(v2, n2, j) == file_blk(v, n, j));
    }
}

/// Block `x` is a table on the way to file block `j` of inode `n`, or its
/// data block.
pub open spec fn uses_at(view: Map<u64, Seq<u8>>, n: RawINode, j: int, x: u64) -> bool {
    on_walk(view, n, j, x) || (x != 0 && file_blk(view, n, j) == x)
}

/// Block `x` is used by one of file blocks `lo` up to `hi` of inode `n`.
pub open spec fn range_uses(view: Map<u64, Seq<u8>>, n: RawINode, lo: int, hi: int, x: u64) -> bool {
    exists|j: int| lo <= j < hi && #[trigger] uses_at(view, n, j, x)
}

/// Block `x`, marked in the data bitmap in `v0`, is in `v` as it was, and
/// still marked.
pub open spec fn blk_kept(
    v0: Map<u64, Seq<u8>>,
    v: Map<u64, Seq<u8>>,
    start: u64,
    ds: int,
    nblks: int,
    x: u64,
) -> bool {
    &&& v.dom().contains(x)
    &&& v[x] == v0[x]
    &&& blk_marked(v, start, ds, nblks, x)
}

/// Every cached block that is marked in the data bitmap in `v0` and that
/// file blocks `lo` up to `hi` of inode `n0` do not use is kept in `v`.
pub open spec fn others_untouched(
    v0: Map<u64, Seq<u8>>,
    v: Map<u64, Seq<u8>>,
    n0: RawINode,
    start: u64,
    ds: int,
    nblks: int,
    lo: int,
    hi: int,
) -> bool {
    forall|x: u64|
        v0.dom().contains(x) && blk_marked(v0, start, ds, nblks, x) && !range_uses(v0, n0, lo, hi, x)
            ==> #[trigger] blk_kept(v0, v, start, ds, nblks, x)
}

/// Every block marked in the data bitmap in `v0` is still marked in `v`.
pub open spec fn marks_kept(v0: Map<u64, Seq<u8>>, v: Map<u64, Seq<u8>>, start: u64, ds: int, nblks: int) -> bool {
    forall|x: u64| #[trigger] blk_marked(v0, start, ds, nblks, x) ==> blk_marked(v, start, ds, nblks, x)
}

/// Each file block from `lo` up to `hi` that inode `n0` lacked in `v0`
/// and inode `n` has in `v` got a block that was free in `v0`.
pub open spec fn fresh_blocks(
    v0: Map<u64, Seq<u8>>,
    n0: RawINode,
    v: Map<u64, Seq<u8>>,
    n: RawINode,
    start: u64,
    ds: int,
    nblks: int,
    lo: int,
    hi: int,
) -> bool {
    forall|j: int|
        lo <= j < hi && file_blk(v0, n0, j) == 0 && #[trigger] file_blk(v, n, j) != 0 ==> !blk_marked(
            v0,
            start,
            ds,
            nblks,
            file_blk(v, n, j),
        )
}

/// One step of a write over a sound range keeps every marked block that
/// the range does not use.
pub proof fn lemma_untouched_step(
    v0: Map<u64, Seq<u8>>,
    n0: RawINode,
    v: Map<u64, Seq<u8>>,
    n: RawINode,
    v2: Map<u64, Seq<u8>>,
    start: u64,
    ds: int,
    nblks: int,
    lo: int,
    hi: int,
    k: int,
    b: u64,
)
    requires
        others_untouched(v0, v, n0, start, ds, nblks, lo, hi),
        n.indirect_blk_ptr == n0.indirect_blk_ptr,
        n.double_indirect_blk_ptr == n0.double_indirect_blk_ptr,
        forall|j: int| lo <= j < hi && j >= 524 ==> #[trigger] second_table(v, n, j) == second_table(v0, n0, j),
        lo <= k < hi,
        file_blk(v, n, k) == file_blk(v0, n0, k),
        b != 0,
        b == file_blk(v, n, k) || !blk_marked(v, start, ds, nblks, b),
        forall|x: u64| #[trigger] v.dom().contains(x) && x >= ds && x != b && !on_walk(v, n, k, x) ==> v2[x] == v[x],
        forall|x: u64| #[trigger] blk_marked(v, start, ds, nblks, x) ==> blk_marked(v2, start, ds, nblks, x),
        forall|x: u64| #[trigger] v.dom().contains(x) ==> v2.dom().contains(x),
    ensures
        others_untouched(v0, v2, n0, start, ds, nblks, lo, hi),
{
    assert forall|x: u64|
        v0.dom().contains(x) && blk_marked(v0, start, ds, nblks, x) && !range_uses(v0, n0, lo, hi, x) implies #[trigger] blk_kept(
        v0,
        v2,
        start,
        ds,
        nblks,
        x,
    ) by {
        assert(blk_kept(v0, v, start, ds, nblks, x));
        assert(!uses_at(v0, n0, k, x));
        if k >= 524 {
            assert(second_table(v, n, k) == second_table(v0, n0, k));
        }
        assert(!on_walk(v, n, k, x));
        assert(x != b);
        assert(v2[x] == v[x]);
    }
}

/// What a write kept stays kept across blocks read in before it and a
/// block before the data bitmap written after it.
pub proof fn lemma_untouched_frame(
    a: Map<u64, Seq<u8>>,
    v0: Map<u64, Seq<u8>>,
    v: Map<u64, Seq<u8>>,
    v2: Map<u64, Seq<u8>>,
    n: RawINode,
    start: u64,
    ds: int,
    nblks: int,
    lo: int,
    hi: int,
    c: Option<u64>,
)
    requires
        range_sound(a, n, start, ds, nblks, lo, hi),
        extends(a, v0),
        others_untouched(v0, v, n, start, ds, nblks, lo, hi),
        c matches Some(b) ==> b < start,
        forall|x: u64| #[trigger] v.dom().contains(x) ==> v2.dom().contains(x) && (c != Some(x) ==> v2[x] == v[x]),
    ensures
        others_untouched(a, v2, n, start, ds, nblks, lo, hi),
{
    lemma_sound_frame(a, v0, n, start, ds, nblks, lo, hi, None);
    assert forall|x: u64|
        a.dom().contains(x) && blk_marked(a, start, ds, nblks, x) && !range_uses(a, n, lo, hi, x) implies #[trigger] blk_kept(
        a,
        v2,
        start,
        ds,
        nblks,
        x,
    ) by {
        assert(blk_marked(v0, start, ds, nblks, x));
        if range_uses(v0, n, lo, hi, x) {
            let j = choose|j: int| lo <= j < hi && #[trigger] uses_at(v0, n, j, x);
            assert(file_blk(v0, n, j) == file_blk(a, n, j));
            if j >= 524 {
                assert(second_table(v0, n, j) == second_table(a, n, j));
            }
            assert(uses_at(a, n, j, x));
        }
        assert(blk_kept(v0, v, start, ds, nblks, x));
        lemma_bitmap_before_data(start, ds, nblks, x);
        let bb = bit_blk(start, x - ds);
        assert(v.dom().contains(bb));
        assert(v2[bb] == v[bb]);
        assert(v2[x] == v[x]);
    }
}

/// A write to inode `n0` leaves each byte of another inode `m` as it was,
/// where the blocks on the way to it are cached and marked in the data
/// bitmap, and the write's range does not use them.
pub proof fn lemma_other_byte_kept(
    v0: Map<u64, Seq<u8>>,
    v: Map<u64, Seq<u8>>,
    n0: RawINode,
    m: RawINode,
    start: u64,
    ds: int,
    nblks: int,
    lo: int,
    hi: int,
    q: int,
)
    requires
        others_untouched(v0, v, n0, start, ds, nblks, lo, hi),
        0 <= q,
        walk_marked(v0, m, start, ds, nblks, q / 4096),
        file_blk(v0, m, q / 4096) != 0,
        v0.dom().contains(file_blk(v0, m, q / 4096)),
        blk_marked(v0, start, ds, nblks, file_blk(v0, m, q / 4096)),
        forall|x: u64| #[trigger] uses_at(v0, m, q / 4096, x) ==> !range_uses(v0, n0, lo, hi, x),
    ensures
        file_byte(v, m, q) == file_byte(v0, m, q),
        byte_known(v, m, q),
{
    let j = q / 4096;
    if 12 <= j < 524 {
        let t = m.indirect_blk_ptr;
        assert(uses_at(v0, m, j, t));
        assert(blk_kept(v0, v, start, ds, nblks, t));
    } else if j >= 524 {
        let t = m.double_indirect_blk_ptr;
        assert(uses_at(v0, m, j, t));
        assert(blk_kept(v0, v, start, ds, nblks, t));
        let t2 = second_table(v0, m, j);
        assert(second_table(v, m, j) == t2);
        assert(uses_at(v0, m, j, t2));
        assert(blk_kept(v0, v, start, ds, nblks, t2));
    }
    let d = file_blk(v0, m, j);
    assert(file_blk(v, m, j) == d);
    assert(uses_at(v0, m, j, d));
    assert(blk_kept(v0, v, start, ds, nblks, d));
}

/// Blocks read in before a write and a block before the data bitmap
/// written after it keep the marks and the fresh blocks the write left.
pub proof fn lemma_fresh_frame(
    a: Map<u64, Seq<u8>>,
    v0: Map<u64, Seq<u8>>,
    n0: RawINode,
    v: Map<u64, Seq<u8>>,
    n: RawINode,
    v2: Map<u64, Seq<u8>>,
    start: u64,
    ds: int,
    nblks: int,
    lo: int,
    hi: int,
    c: Option<u64>,
)
    requires
        range_sound(a, n0, start, ds, nblks, lo, hi),
        extends(a, v0),
        marks_kept(v0, v, start, ds, nblks),
        fresh_blocks(v0, n0, v, n, start, ds, nblks, lo, hi),
        range_sound(v, n, start, ds, nblks, lo, hi),
        c matches Some(b) ==> b < start,
        forall|x: u64| #[trigger] v.dom().contains(x) ==> v2.dom().contains(x) && (c != Some(x) ==> v2[x] == v[x]),
    ensures
        marks_kept(a, v2, start, ds, nblks),
        fresh_blocks(a, n0, v2, n, start, ds, nblks, lo, hi),
{
    lemma_sound_frame(a, v0, n0, start, ds, nblks, lo, hi, None);
    lemma_sound_frame(v, v2, n, start, ds, nblks, lo, hi, c);
    assert forall|j: int|
        lo <= j < hi && file_blk(a, n0, j) == 0 && #[trigger] file_blk(v2, n, j) != 0 implies !blk_marked(
        a,
        start,
        ds,
        nblks,
        file_blk(v2, n, j),
    ) by {
        assert(file_blk(v0, n0, j) == file_blk(a, n0, j));
        assert(file_blk(v2, n, j) == file_blk(v, n, j));
        assert(!blk_marked(v0, start, ds, nblks, file_blk(v, n, j)));
    }
}

/// What a write over a range kept, it kept over any wider range.
pub proof fn lemma_untouched_widen(
    v0: Map<u64, Seq<u8>>,
    v: Map<u64, Seq<u8>>,
    n: RawINode,
    start: u64,
    ds: int,
    nblks: int,
    lo: int,
    hi: int,
    lo2: int,
    hi2: int,
)
    requires
        others_untouched(v0, v, n, start, ds, nblks, lo, hi),
        lo2 <= lo,
        hi <= hi2,
    ensures
        others_untouched(v0, v, n, start, ds, nblks, lo2, hi2),
{
    assert forall|x: u64|
        v0.dom().contains(x) && blk_marked(v0, start, ds, nblks, x) && !range_uses(v0, n, lo2, hi2, x) implies #[trigger] blk_kept(
        v0,
        v,
        start,
        ds,
        nblks,
        x,
    ) by {
        if range_uses(v0, n, lo, hi, x) {
            let j = choose|j: int| lo <= j < hi && #[trigger] uses_at(v0, n, j, x);
            assert(uses_at(v0, n, j, x));
        }
    }
}

/// The blocks of a sound range that the range's walks read are the same
/// in `v`, and every mark is kept: the range is sound in `v` and reaches
/// the same blocks.
pub proof fn lemma_sound_kept(
    v0: Map<u64, Seq<u8>>,
    v: Map<u64, Seq<u8>>,
    m: RawINode,
    start: u64,
    ds: int,
    nblks: int,
    lo: int,
    hi: int,
)
    requires
        range_sound(v0, m, start, ds, nblks, lo, hi),
        marks_kept(v0, v, start, ds, nblks),
        forall|j: int, x: u64|
            lo <= j < hi && #[trigger] on_walk(v0, m, j, x) ==> v.dom().contains(x) && v[x] == v0[x],
    ensures
        range_sound(v, m, start, ds, nblks, lo, hi),
        forall|j: int| lo <= j < hi ==> #[trigger] file_blk(v, m, j) == file_blk(v0, m, j),
        forall|j: int| lo <= j < hi && j >= 524 ==> #[trigger] second_table(v, m, j) == second_table(v0, m, j),
{
    assert forall|j: int| lo <= j < hi implies (j >= 524 ==> second_table(v, m, j) == second_table(v0, m, j))
        && #[trigger] file_blk(v, m, j) == file_blk(v0, m, j) && walk_marked(v, m, start, ds, nblks, j) by {
        assert(walk_marked(v0, m, start, ds, nblks, j));
        if 12 <= j < 524 {
            assert(on_walk(v0, m, j, m.indirect_blk_ptr));
        } else if j >= 524 {
            assert(on_walk(v0, m, j, m.double_indirect_blk_ptr));
            assert(second_table(v, m, j) == second_table(v0, m, j));
            assert(on_walk(v0, m, j, second_table(v0, m, j)));
        }
    }
    assert forall|j: int| lo <= j < hi && j >= 524 implies #[trigger] second_table(v, m, j) == second_table(v0, m, j) by {
        assert(file_blk(v, m, j) == file_blk(v0, m, j));
    }
    assert forall|j: int| lo <= j < hi implies #[trigger] walk_marked(v, m, start, ds, nblks, j) by {
        assert(file_blk(v, m, j) == file_blk(v0, m, j));
    }
    assert forall|j: int| #![trigger file_blk(v, m, j)] lo <= j < hi && file_blk(v, m, j) != 0 implies blk_marked(
        v,
        start,
        ds,
        nblks,
        file_blk(v, m, j),
    ) by {
        assert(file_blk(v, m, j) == file_blk(v0, m, j));
    }
    assert forall|i: int, j: int|
        #![trigger file_blk(v, m, i), file_blk(v, m, j)]
        lo <= i < hi && lo <= j < hi && i != j && file_blk(v, m, i) != 0 implies file_blk(v, m, i) != file_blk(
            v,
            m,
            j,
        ) by {
        assert(file_blk(v, m, i) == file_blk(v0, m, i));
        assert(file_blk(v, m, j) == file_blk(v0, m, j));
    }
    assert forall|i: int, j: int|
        #![trigger on_walk(v, m, j, file_blk(v, m, i))]
        lo <= i < hi && lo <= j < hi && file_blk(v, m, i) != 0 implies !on_walk(v, m, j, file_blk(v, m, i)) by {
        assert(file_blk(v, m, i) == file_blk(v0, m, i));
        assert(file_blk(v, m, j) == file_blk(v0, m, j));
        assert(!on_walk(v0, m, j, file_blk(v0, m, i)));
    }
    assert forall|j: int| lo <= j < hi && j >= 524 implies #[trigger] roles_apart(v, m, lo, j) by {
        assert(file_blk(v, m, j) == file_blk(v0, m, j));
        assert(roles_apart(v0, m, lo, j));
    }
    assert forall|i: int, j: int|
        #![trigger second_table(v, m, i), second_table(v, m, j)]
        lo <= i < hi && lo <= j < hi && i >= 524 && j >= 524 && (i - 524) / 512 != (j - 524) / 512 implies second_table(
            v,
            m,
            i,
        ) != second_table(v, m, j) by {
        assert(file_blk(v, m, i) == file_blk(v0, m, i));
        assert(file_blk(v, m, j) == file_blk(v0, m, j));
    }
}

/// The first file blocks of an inode without any block are laid out
/// soundly, and use no block.
pub proof fn lemma_fresh_ready(v: Map<u64, Seq<u8>>, n: RawINode, start: u64, ds: int, nblks: int, hi: int)
    requires
        start < ds,
        nblks <= (ds - start) * 32768,
        0 <= hi <= 12,
        forall|i: int| 0 <= i < 12 ==> #[trigger] n.direct_blk_ptrs@[i] == 0,
    ensures
        range_sound(v, n, start, ds, nblks, 0, hi),
        forall|x: u64| !#[trigger] range_uses(v, n, 0, hi, x),
{
    assert forall|j: int| 0 <= j < hi implies #[trigger] file_blk(v, n, j) == 0 by {
        assert(n.direct_blk_ptrs@[j] == 0);
    }
    assert forall|x: u64| !#[trigger] range_uses(v, n, 0, hi, x) by {
        if range_uses(v, n, 0, hi, x) {
            let j = choose|j: int| 0 <= j < hi && #[trigger] uses_at(v, n, j, x);
            assert(file_blk(v, n, j) == 0);
        }
    }
}

/// Freeing the data block of file block `k`, and clearing its pointer,
/// keeps every marked block that file blocks `lo` up to `hi` do not use.
pub proof fn lemma_free_untouched(
    v0: Map<u64, Seq<u8>>,
    n0: RawINode,
    v: Map<u64, Seq<u8>>,
    n: RawINode,
    v2: Map<u64, Seq<u8>>,
    start: u64,
    ds: int,
    nblks: int,
    lo: int,
    hi: int,
    k: int,
    b: u64,
)
    requires
        others_untouched(v0, v, n0, start, ds, nblks, lo, hi),
        n.indirect_blk_ptr == n0.indirect_blk_ptr,
        n.double_indirect_blk_ptr == n0.double_indirect_blk_ptr,
        lo <= k < hi,
        k >= 524 ==> second_table(v, n, k) == second_table(v0, n0, k),
        file_blk(v, n, k) == file_blk(v0, n0, k),
        b == file_blk(v, n, k),
        b != 0,
        forall|x: u64| #[trigger] v.dom().contains(x) && x >= ds && !on_walk(v, n, k, x) ==> v2[x] == v[x],
        forall|x: u64| #[trigger] blk_marked(v, start, ds, nblks, x) && x != b ==> blk_marked(v2, start, ds, nblks, x),
        forall|x: u64| #[trigger] v.dom().contains(x) ==> v2.dom().contains(x),
    ensures
        others_untouched(v0, v2, n0, start, ds, nblks, lo, hi),
{
    assert forall|x: u64|
        v0.dom().contains(x) && blk_marked(v0, start, ds, nblks, x) && !range_uses(v0, n0, lo, hi, x) implies #[trigger] blk_kept(
        v0,
        v2,
        start,
        ds,
        nblks,
        x,
    ) by {
        assert(blk_kept(v0, v, start, ds, nblks, x));
        assert(!uses_at(v0, n0, k, x));
        assert(!on_walk(v, n, k, x));
        assert(x != b);
    }
}

/// Reading blocks in keeps what a write or a free kept.
pub proof fn lemma_untouched_extends(
    v0: Map<u64, Seq<u8>>,
    v: Map<u64, Seq<u8>>,
    v2: Map<u64, Seq<u8>>,
    n0: RawINode,
    start: u64,
    ds: int,
    nblks: int,
    lo: int,
    hi: int,
)
    requires
        others_untouched(v0, v, n0, start, ds, nblks, lo, hi),
        extends(v, v2),
    ensures
        others_untouched(v0, v2, n0, start, ds, nblks, lo, hi),
{
    assert forall|x: u64|
        v0.dom().contains(x) && blk_marked(v0, start, ds, nblks, x) && !range_uses(v0, n0, lo, hi, x) implies #[trigger] blk_kept(
        v0,
        v2,
        start,
        ds,
        nblks,
        x,
    ) by {
        assert(blk_kept(v0, v, start, ds, nblks, x));
        let bb = bit_blk(start, x - ds);
        assert(v.dom().contains(bb));
        assert(v2[bb] == v[bb]);
    }
}

/// Freeing a table that file block `j` of the range reaches keeps every
/// marked block that the range does not use.
pub proof fn lemma_table_free_untouched(
    v0: Map<u64, Seq<u8>>,
    n0: RawINode,
    v: Map<u64, Seq<u8>>,
    v2: Map<u64, Seq<u8>>,
    start: u64,
    ds: int,
    nblks: int,
    lo: int,
    hi: int,
    j: int,
    t: u64,
)
    requires
        others_untouched(v0, v, n0, start, ds, nblks, lo, hi),
        lo <= j < hi,
        on_walk(v0, n0, j, t),
        start < ds,
        nblks <= (ds - start) * 32768,
        ds <= t < ds + nblks,
        bit_flipped(v, v2, start, t - ds, false),
    ensures
        others_untouched(v0, v2, n0, start, ds, nblks, lo, hi),
{
    lemma_unflip_marks(v, v2, start, ds, nblks, t);
    assert forall|x: u64|
        v0.dom().contains(x) && blk_marked(v0, start, ds, nblks, x) && !range_uses(v0, n0, lo, hi, x) implies #[trigger] blk_kept(
        v0,
        v2,
        start,
        ds,
        nblks,
        x,
    ) by {
        assert(blk_kept(v0, v, start, ds, nblks, x));
        assert(uses_at(v0, n0, j, t));
        assert(x != t);
    }
}

/// Nothing done keeps every block.
pub proof fn lemma_untouched_refl(
    v: Map<u64, Seq<u8>>,
    n: RawINode,
    start: u64,
    ds: int,
    nblks: int,
    lo: int,
    hi: int,
)
    ensures
        others_untouched(v, v, n, start, ds, nblks, lo, hi),
{
    assert forall|x: u64|
        v.dom().contains(x) && blk_marked(v, start, ds, nblks, x) && !range_uses(v, n, lo, hi, x) implies #[trigger] blk_kept(
        v,
        v,
        start,
        ds,
        nblks,
        x,
    ) by {}
}

} // verus!
