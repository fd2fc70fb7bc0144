//! Sv39 page tables held as a tree of tables, each known by the physical
//! frame it lives in, and the mapping of ranges of virtual pages onto
//! fresh frames.
//!
//! A page-directory entry names the frame of the next-level table; the
//! step from an entry to that table is a look-up of the table by its
//! frame. The mapping a tree stands for is its view: page number `p`
//! (the virtual address over 4096) to the valid level-0 entry its walk
//! ends at.

use vstd::prelude::*;
use crate::errors::{SysError, SysErrorKind};
use crate::kernel::pte::{EntryPerm, ArchEntryPerm, perm_bits, has_flag, PTE_VALID, FLAGS_MASK};

verus! {

/// The number of virtual pages of the Sv39 address space.
pub const VA_PAGES: u64 = 0x800_0000;

/// The frames handed out by a pool lie below this physical address.
pub const FRAME_LIMIT: u64 = 0x100_0000_0000_0000;

/// Whether an entry is valid.
pub open spec fn pte_valid(e: u64) -> bool {
    has_flag(e, PTE_VALID)
}

/// The physical address an entry names.
pub open spec fn pte_addr(e: u64) -> int {
    (e >> 10) as int * 4096
}

/// The entry that names frame `addr` with flag bits `bits`.
pub open spec fn make_entry(addr: u64, bits: u64) -> u64 {
    ((addr / 4096) << 10) | bits
}

/// The level-2 index of page `p`.
pub open spec fn idx2(p: int) -> int {
    p / 0x40000
}

/// The level-1 index of page `p`.
pub open spec fn idx1(p: int) -> int {
    (p / 512) % 512
}

/// The level-0 index of page `p`.
pub open spec fn idx0(p: int) -> int {
    p % 512
}

/// One table: the frame it lives in, its level (2 for the root, 0 for the
/// tables of leaf entries) and its 512 entries.
pub struct PageTable {
    pub addr: u64,
    pub level: u8,
    pub entries: Vec<u64>,
    /// The table and index of the entry that names this table.
    pub parent: Ghost<(int, int)>,
}

/// A tree of tables; the first is the root.
pub struct PageTables {
    tables: Vec<PageTable>,
}

/// A pool of free, distinct, page-aligned frames.
pub struct FramePool {
    free: Vec<u64>,
}

impl FramePool {
    /// The free frames.
    pub closed spec fn frames(&self) -> Seq<u64> {
        self.free@
    }

    /// The frames are distinct, page-aligned, nonzero and below the
    /// frame limit.
    pub open spec fn wf(&self) -> bool {
        &&& forall|i: int| 0 <= i < self.frames().len() ==> #[trigger] frame_ok(self.frames()[i])
        &&& forall|i: int, j: int|
            0 <= i < j < self.frames().len() ==> #[trigger] self.frames()[i] != #[trigger] self.frames()[j]
    }

    /// The `count` frames from `base` on, the last handed out first.
    pub fn from_range(base: u64, count: u64) -> (r: Self)
        requires
            base % 4096 == 0,
            base != 0,
            base + count * 4096 <= FRAME_LIMIT,
        ensures
            r.wf(),
            r.frames().len() == count,
            forall|i: int| 0 <= i < count ==> #[trigger] r.frames()[i] == base + i * 4096,
    {
        let mut free: Vec<u64> = Vec::new();
        let mut i: u64 = 0;
        while i < count
            invariant
                i <= count,
                base % 4096 == 0,
                base != 0,
                base + count * 4096 <= FRAME_LIMIT,
                free@.len() == i,
                forall|j: int| 0 <= j < i ==> #[trigger] free@[j] == base + j * 4096,
            decreases count - i,
        {
            proof {
                assert(base + i * 4096 + 4096 <= FRAME_LIMIT) by (nonlinear_arith)
                    requires
                        i < count,
                        base + count * 4096 <= FRAME_LIMIT,
                ;
            }
            free.push(base + i * 4096);
            i = i + 1;
        }
        let r = FramePool { free };
        proof {
            assert forall|j: int| 0 <= j < r.frames().len() implies #[trigger] frame_ok(r.frames()[j]) by {
                assert((base + j * 4096) % 4096 == 0) by (nonlinear_arith)
                    requires
                        base % 4096 == 0,
                        0 <= j,
                ;
                assert(base + j * 4096 < FRAME_LIMIT) by (nonlinear_arith)
                    requires
                        0 <= j < count,
                        base + count * 4096 <= FRAME_LIMIT,
                ;
            }
        }
        r
    }

    /// The number of free frames.
    pub fn len(&self) -> (r: usize)
        ensures
            r == self.frames().len(),
    {
        self.free.len()
    }

    /// Hands out the last free frame; `None` when there is none.
    pub fn take(&mut self) -> (r: Option<u64>)
        requires
            old(self).wf(),
        ensures
            final(self).wf(),
            old(self).frames().len() == 0 ==> r is None && final(self).frames() == old(self).frames(),
            old(self).frames().len() > 0 ==> r == Some(old(self).frames().last()) && final(self).frames()
                == old(self).frames().drop_last(),
    {
        self.free.pop()
    }

    /// Takes frame `f` back.
    pub fn give_back(&mut self, f: u64)
        requires
            old(self).wf(),
            frame_ok(f),
            !old(self).frames().contains(f),
        ensures
            final(self).wf(),
            final(self).frames() == old(self).frames().push(f),
    {
        self.free.push(f);
        proof {
            assert forall|i: int, j: int|
                0 <= i < j < self.frames().len() implies #[trigger] self.frames()[i] != #[trigger] self.frames()[j] by {
                if j == self.frames().len() - 1 {
                    assert(old(self).frames()[i] == self.frames()[i]);
                }
            }
        }
    }
}

/// Frame `f` is page-aligned, nonzero and below the frame limit.
pub open spec fn frame_ok(f: u64) -> bool {
    f % 4096 == 0 && f != 0 && f < FRAME_LIMIT
}

/// The index of the table that lives in frame `a`.
pub open spec fn table_at(t: Seq<PageTable>, a: int) -> int {
    choose|k: int| 0 <= k < t.len() && t[k].addr == a
}

/// The table that entry `i` of table `k` names.
pub open spec fn pde_target(t: Seq<PageTable>, k: int, i: int) -> int {
    table_at(t, pte_addr(t[k].entries@[i]))
}

/// Entry `i` of table `k` is a directory entry: the table is above level
/// 0 and the entry is valid.
pub open spec fn is_pde(t: Seq<PageTable>, k: int, i: int) -> bool {
    t[k].level >= 1 && pte_valid(t[k].entries@[i])
}

/// The directory entry `i` of table `k` names a table one level down,
/// whose parent it is.
pub open spec fn pde_ok(t: Seq<PageTable>, k: int, i: int) -> bool {
    let j = pde_target(t, k, i);
    &&& 0 <= j < t.len()
    &&& t[j].addr == pte_addr(t[k].entries@[i])
    &&& t[j].level + 1 == t[k].level
    &&& t[j].parent@ == (k, i)
}

/// The shape of one table.
pub open spec fn table_ok(tb: PageTable) -> bool {
    &&& tb.entries@.len() == 512
    &&& frame_ok(tb.addr)
    &&& tb.level <= 2
}

/// The tables form a tree below the root: each has its shape, they live in
/// distinct frames, and each directory entry names a table one level down
/// that it is the only parent of.
pub open spec fn tree_ok(t: Seq<PageTable>) -> bool {
    &&& t.len() >= 1
    &&& t[0].level == 2
    &&& forall|k: int| 0 < k < t.len() ==> #[trigger] t[k].level < 2
    &&& forall|k: int| 0 <= k < t.len() ==> #[trigger] table_ok(t[k])
    &&& forall|k1: int, k2: int| 0 <= k1 < t.len() && 0 <= k2 < t.len() && k1 != k2 ==> #[trigger] t[k1].addr != #[trigger] t[k2].addr
    &&& forall|k: int, i: int| 0 <= k < t.len() && 0 <= i < 512 && #[trigger] is_pde(t, k, i) ==> pde_ok(t, k, i)
}

/// The level-0 table the walk of page `p` reaches, if its directory
/// entries are valid.
pub open spec fn leaf_table(t: Seq<PageTable>, p: int) -> Option<int> {
    let e2 = t[0].entries@[idx2(p)];
    if !pte_valid(e2) {
        None
    } else {
        let m = table_at(t, pte_addr(e2));
        let e1 = t[m].entries@[idx1(p)];
        if !pte_valid(e1) {
            None
        } else {
            Some(table_at(t, pte_addr(e1)))
        }
    }
}

/// The valid level-0 entry of page `p`, if any.
pub open spec fn leaf_entry(t: Seq<PageTable>, p: int) -> Option<u64> {
    match leaf_table(t, p) {
        Some(l) => if pte_valid(t[l].entries@[idx0(p)]) {
            Some(t[l].entries@[idx0(p)])
        } else {
            None
        },
        None => None,
    }
}

/// The mapping of a tree: each page of the address space with a valid
/// leaf entry, to that entry.
pub open spec fn mapping(t: Seq<PageTable>) -> Map<int, u64> {
    Map::new(|p: int| 0 <= p < VA_PAGES && leaf_entry(t, p) is Some, |p: int| leaf_entry(t, p)->0)
}

/// Frame `f` is in use by the tree: a table lives in it or a valid leaf
/// entry names it.
pub open spec fn frame_used(t: Seq<PageTable>, f: u64) -> bool {
    ||| exists|k: int| 0 <= k < t.len() && #[trigger] t[k].addr == f
    ||| exists|k: int, i: int|
        0 <= k < t.len() && 0 <= i < 512 && t[k].level == 0 && pte_valid(t[k].entries@[i]) && #[trigger] pte_addr(
            t[k].entries@[i],
        ) == f
}

impl View for PageTables {
    type V = Map<int, u64>;

    closed spec fn view(&self) -> Map<int, u64> {
        mapping(self.tables@)
    }
}

impl PageTables {
    /// The tables.
    pub closed spec fn tables(&self) -> Seq<PageTable> {
        self.tables@
    }

    /// The tables form a tree.
    pub closed spec fn wf(&self) -> bool {
        tree_ok(self.tables@) && leaves_apart(self.tables@)
    }

    /// No frame of `pool` is in use by the tree.
    pub closed spec fn apart(&self, pool: FramePool) -> bool {
        forall|i: int| 0 <= i < pool.frames().len() ==> !frame_used(self.tables@, #[trigger] pool.frames()[i])
    }
}

/// An entry of zeros is not valid.
proof fn lemma_zero_invalid()
    ensures
        !pte_valid(0),
{
    assert(0u64 & 1u64 == 0) by (bit_vector);
}

/// An entry made of a frame and flag bits names the frame and has the
/// bits.
proof fn lemma_make_entry(addr: u64, bits: u64)
    requires
        frame_ok(addr),
        bits < 1024,
    ensures
        pte_addr(make_entry(addr, bits)) == addr,
        make_entry(addr, bits) & FLAGS_MASK == bits,
        pte_valid(make_entry(addr, bits)) == (bits & 1 != 0),
{
    let q = addr / 4096;
    assert(q < 0x10_0000_0000_0000);
    assert(((q << 10) | bits) >> 10 == q && ((q << 10) | bits) & 0x3FF == bits && (((q << 10) | bits) & 1
        != 0) == (bits & 1 != 0)) by (bit_vector)
        requires
            q < 0x10_0000_0000_0000u64,
            bits < 1024u64,
    ;
}

/// A page number is its three indices put together.
proof fn lemma_indices(p: int, q: int)
    requires
        0 <= p < VA_PAGES,
        0 <= q < VA_PAGES,
        idx2(p) == idx2(q),
        idx1(p) == idx1(q),
        idx0(p) == idx0(q),
    ensures
        p == q,
{
    assert(p == idx2(p) * 0x40000 + idx1(p) * 512 + idx0(p)) by (nonlinear_arith)
        requires
            0 <= p,
    ;
    assert(q == idx2(q) * 0x40000 + idx1(q) * 512 + idx0(q)) by (nonlinear_arith)
        requires
            0 <= q,
    ;
}

/// The indices of a page of the address space are table indices.
proof fn lemma_index_bounds(p: int)
    requires
        0 <= p < VA_PAGES,
    ensures
        0 <= idx2(p) < 512,
        0 <= idx1(p) < 512,
        0 <= idx0(p) < 512,
{
}

/// In a tree, the table a valid directory entry names is found by its
/// frame, and distinct directory entries name distinct tables.
proof fn lemma_target(t: Seq<PageTable>, k: int, i: int)
    requires
        tree_ok(t),
        0 <= k < t.len(),
        0 <= i < 512,
        is_pde(t, k, i),
    ensures
        pde_ok(t, k, i),
        table_at(t, pte_addr(t[k].entries@[i])) == pde_target(t, k, i),
{
}


/// A table is found by its own frame.
proof fn lemma_table_at(t: Seq<PageTable>, j: int)
    requires
        tree_ok(t),
        0 <= j < t.len(),
    ensures
        table_at(t, t[j].addr as int) == j,
{
    let c = table_at(t, t[j].addr as int);
    assert(0 <= c < t.len() && t[c].addr == t[j].addr);
}

/// `new` is `old` with a zeroed table at level one below table `k` in
/// frame `f`, named by entry `i` of table `k`.
pub open spec fn grown(old: Seq<PageTable>, new: Seq<PageTable>, k: int, i: int, f: u64) -> bool {
    let n = old.len() as int;
    &&& new.len() == n + 1
    &&& forall|j: int| 0 <= j < n && j != k ==> #[trigger] new[j] == old[j]
    &&& new[k].addr == old[k].addr
    &&& new[k].level == old[k].level
    &&& new[k].parent == old[k].parent
    &&& new[k].entries@ == old[k].entries@.update(i, make_entry(f, PTE_VALID))
    &&& new[n].addr == f
    &&& new[n].level + 1 == old[k].level
    &&& new[n].entries@ == Seq::new(512, |x: int| 0u64)
    &&& new[n].parent@ == (k, i)
}

/// Two pages share a 2 MiB region exactly when they share their level-2
/// and level-1 indices; the indices of a later page are no smaller.
proof fn lemma_region(x: int, q: int)
    requires
        0 <= x < VA_PAGES,
        0 <= q < VA_PAGES,
    ensures
        (x / 512 == q / 512) == (idx2(x) == idx2(q) && idx1(x) == idx1(q)),
        q <= x ==> idx2(q) <= idx2(x) && q / 512 <= x / 512,
        x == q + 1 && x % 0x40000 != 0 ==> idx2(x) == idx2(q),
        x == q + 1 && x % 512 != 0 ==> x / 512 == q / 512,
        x == q + 1 && x % 0x40000 == 0 ==> idx2(x) != idx2(q),
        x == q + 1 && x % 512 == 0 ==> x / 512 != q / 512,
        x % 0x40000 == 0 ==> x % 512 == 0,
{
    assert(x % 0x40000 == 0 ==> x % 512 == 0) by (nonlinear_arith)
        requires
            0 <= x,
    ;
    assert(x / 0x40000 == (x / 512) / 512 && q / 0x40000 == (q / 512) / 512) by (nonlinear_arith)
        requires
            0 <= x,
            0 <= q,
    ;
    assert(q <= x ==> q / 0x40000 <= x / 0x40000 && q / 512 <= x / 512) by (nonlinear_arith)
        requires
            0 <= q,
    ;
    assert((x / 512 == q / 512) == ((x / 512) / 512 == (q / 512) / 512 && (x / 512) % 512 == (q / 512) % 512))
        by (nonlinear_arith)
        requires
            0 <= x,
            0 <= q,
    ;
    assert(x == q + 1 && x % 0x40000 != 0 ==> x / 0x40000 == q / 0x40000) by (nonlinear_arith)
        requires
            0 <= q,
    ;
    assert(x == q + 1 && x % 512 != 0 ==> x / 512 == q / 512) by (nonlinear_arith)
        requires
            0 <= q,
    ;
    assert(x == q + 1 && x % 0x40000 == 0 ==> x / 0x40000 != q / 0x40000) by (nonlinear_arith)
        requires
            0 <= q,
    ;
    assert(x == q + 1 && x % 512 == 0 ==> x / 512 != q / 512) by (nonlinear_arith)
        requires
            0 <= q,
    ;
}

/// The frames a walk to page `p` takes from the pool: one for a missing
/// level-1 table and one for a missing level-0 table.
pub open spec fn walk_need(t: Seq<PageTable>, p: int) -> int {
    (if !pte_valid(t[0].entries@[idx2(p)]) {
        1int
    } else {
        0int
    }) + (if leaf_table(t, p) is None {
        1int
    } else {
        0int
    })
}

/// Growing a table in under entry `i` of table `k` on the walk to page
/// `q` keeps every other root entry, and keeps whether each page outside
/// the 2 MiB region of `q` has a level-0 table.
proof fn lemma_walk_grow(old: Seq<PageTable>, new: Seq<PageTable>, k: int, i: int, f: u64, q: int, x: int)
    requires
        tree_ok(old),
        0 <= k < old.len(),
        0 <= i < 512,
        old[k].level >= 1,
        !pte_valid(old[k].entries@[i]),
        frame_ok(f),
        !frame_used(old, f),
        grown(old, new, k, i, f),
        0 <= q < VA_PAGES,
        0 <= x < VA_PAGES,
        (k == 0 && i == idx2(q)) || (k != 0 && is_pde(old, 0, idx2(q)) && k == pde_target(old, 0, idx2(q)) && i
            == idx1(q)),
        x / 512 != q / 512,
    ensures
        (leaf_table(new, x) is Some) == (leaf_table(old, x) is Some),
        idx2(x) != idx2(q) || k != 0 ==> new[0].entries@[idx2(x)] == old[0].entries@[idx2(x)],
{
    lemma_grow(old, new, k, i, f);
    lemma_index_bounds(x);
    lemma_index_bounds(q);
    lemma_region(x, q);
    let n = old.len() as int;
    assert(table_ok(old[0]));
    assert(old[0].level == 2);
    if k != 0 {
        assert(new[0] == old[0]);
    }
    let e2 = old[0].entries@[idx2(x)];
    if k == 0 && idx2(x) == idx2(q) {
        // the root entry of `x` names the fresh, empty table
        assert(leaf_table(old, x) is None);
        assert(pde_target(new, 0, i) == n);
        lemma_zero_invalid();
        assert(new[n].entries@[idx1(x)] == 0u64);
    } else if pte_valid(e2) {
        assert(new[0].entries@[idx2(x)] == e2);
        assert(is_pde(old, 0, idx2(x)));
        lemma_target(old, 0, idx2(x));
        let m = pde_target(old, 0, idx2(x));
        lemma_table_at(new, m);
        assert(new[m].addr == old[m].addr) by {
            if m != k {
                assert(new[m] == old[m]);
            }
        }
        assert(table_at(new, pte_addr(e2)) == m);
        assert(table_ok(old[m]));
        if m == k {
            // same level-1 table as `q`, another entry of it
            assert(idx2(x) == idx2(q)) by {
                lemma_target(old, 0, idx2(q));
                assert(old[m].parent@ == (0int, idx2(x)));
                assert(old[m].parent@ == (0int, idx2(q)));
            }
            assert(idx1(x) != idx1(q));
            assert(new[m].entries@[idx1(x)] == old[m].entries@[idx1(x)]);
        } else {
            assert(new[m] == old[m]);
        }
        let e1 = old[m].entries@[idx1(x)];
        if pte_valid(e1) {
            assert(old[m].level == 1);
            assert(is_pde(old, m, idx1(x)));
            lemma_target(old, m, idx1(x));
            let l = pde_target(old, m, idx1(x));
            lemma_table_at(new, l);
            assert(new[l].addr == old[l].addr) by {
                if l != k {
                    assert(new[l] == old[l]);
                }
            }
        }
    }
}

/// Writing an entry of a level-0 table changes no walk.
proof fn lemma_walk_set(old: Seq<PageTable>, new: Seq<PageTable>, l: int, j: int, e: u64, x: int)
    requires
        tree_ok(old),
        tree_ok(new),
        0 <= l < old.len(),
        old[l].level == 0,
        set_at(old, new, l, j, e),
        0 <= x < VA_PAGES,
    ensures
        leaf_table(new, x) == leaf_table(old, x),
        new[0] == old[0],
{
    lemma_index_bounds(x);
    assert(old[0].level == 2);
    assert(new[0] == old[0]);
    let e2 = old[0].entries@[idx2(x)];
    assert(table_ok(old[0]));
    if pte_valid(e2) {
        assert(is_pde(old, 0, idx2(x)));
        lemma_target(old, 0, idx2(x));
        let m = pde_target(old, 0, idx2(x));
        assert(old[m].level == 1);
        assert(new[m] == old[m]);
        lemma_table_at(new, m);
        assert(table_ok(old[m]));
        let e1 = old[m].entries@[idx1(x)];
        if pte_valid(e1) {
            assert(is_pde(old, m, idx1(x)));
            lemma_target(old, m, idx1(x));
            let t = pde_target(old, m, idx1(x));
            lemma_table_at(new, t);
            assert(new[t].addr == old[t].addr) by {
                if t != l {
                    assert(new[t] == old[t]);
                }
            }
        }
    }
}

/// Growing the tree under an entry that was not valid, into a frame no
/// table lives in, keeps it a tree and keeps its mapping.
proof fn lemma_grow(old: Seq<PageTable>, new: Seq<PageTable>, k: int, i: int, f: u64)
    requires
        tree_ok(old),
        0 <= k < old.len(),
        0 <= i < 512,
        old[k].level >= 1,
        !pte_valid(old[k].entries@[i]),
        frame_ok(f),
        !frame_used(old, f),
        grown(old, new, k, i, f),
    ensures
        tree_ok(new),
        mapping(new) == mapping(old),
        forall|g: u64| #[trigger] frame_used(new, g) ==> frame_used(old, g) || g == f,
        pde_target(new, k, i) == old.len(),
        leaves_apart(old) ==> leaves_apart(new),
{
    let n = old.len() as int;
    assert(table_ok(old[k]));
    assert(new[k].entries@[i] == make_entry(f, PTE_VALID));
    lemma_make_entry(f, PTE_VALID);
    assert(PTE_VALID & 1 != 0) by (bit_vector);
    lemma_zero_invalid();
    assert forall|j: int| 0 <= j < n implies #[trigger] new[j].addr == old[j].addr by {
        if j != k {
            assert(new[j] == old[j]);
        }
    }
    assert(table_at(new, f as int) == n) by {
        let c = table_at(new, f as int);
        assert(new[n].addr == f);
        if c < n {
            assert(new[c].addr == old[c].addr);
            assert(frame_used(old, f));
        }
    }
    assert forall|j: int| 0 <= j < n implies table_at(new, #[trigger] old[j].addr as int) == j by {
        let c = table_at(new, old[j].addr as int);
        assert(new[j].addr == old[j].addr);
        if c == n {
            assert(frame_used(old, f));
        } else if c != j {
            assert(new[c].addr == old[c].addr);
        }
    }
    assert forall|j: int| 0 <= j < new.len() implies #[trigger] table_ok(new[j]) by {
        if j < n && j != k {
            assert(new[j] == old[j]);
        } else if j == k {
            assert(table_ok(old[k]));
        }
    }
    assert forall|j: int| 0 < j < new.len() implies #[trigger] new[j].level < 2 by {
        if j < n && j != k {
            assert(new[j] == old[j]);
        }
    }
    assert forall|k1: int, k2: int|
        0 <= k1 < new.len() && 0 <= k2 < new.len() && k1 != k2 implies #[trigger] new[k1].addr != #[trigger] new[k2].addr by {
        if k1 == n {
            assert(new[k2].addr == old[k2].addr);
            if old[k2].addr == f {
                assert(frame_used(old, f));
            }
        } else if k2 == n {
            assert(new[k1].addr == old[k1].addr);
            if old[k1].addr == f {
                assert(frame_used(old, f));
            }
        } else {
            assert(new[k1].addr == old[k1].addr);
            assert(new[k2].addr == old[k2].addr);
        }
    }
    assert forall|a: int, b: int| 0 <= a < new.len() && 0 <= b < 512 && #[trigger] is_pde(new, a, b) implies pde_ok(
        new,
        a,
        b,
    ) by {
        if a == k && b == i {
            assert(pde_target(new, a, b) == n);
        } else if a == n {
            assert(new[n].entries@[b] == 0u64);
        } else {
            assert(table_ok(old[a]));
            assert(new[a].entries@[b] == old[a].entries@[b]);
            assert(new[a].level == old[a].level);
            assert(is_pde(old, a, b));
            assert(pde_ok(old, a, b));
            let j = pde_target(old, a, b);
            assert(table_at(new, old[j].addr as int) == j);
            assert(pde_target(new, a, b) == j);
            if j == k {
                assert(new[k].parent == old[k].parent);
            } else {
                assert(new[j] == old[j]);
            }
        }
    }
    assert(tree_ok(new));
    assert forall|g: u64| #[trigger] frame_used(new, g) implies frame_used(old, g) || g == f by {
        if exists|a: int| 0 <= a < new.len() && #[trigger] new[a].addr == g {
            let a = choose|a: int| 0 <= a < new.len() && #[trigger] new[a].addr == g;
            if a < n {
                assert(old[a].addr == g);
            }
        } else {
            let (a, b) = choose|a: int, b: int|
                0 <= a < new.len() && 0 <= b < 512 && new[a].level == 0 && pte_valid(new[a].entries@[b]) && #[trigger] pte_addr(
                    new[a].entries@[b],
                ) == g;
            if a == n {
                assert(new[n].entries@[b] == 0u64);
            } else if a == k {
                assert(old[k].level >= 1);
            } else {
                assert(new[a] == old[a]);
                assert(pte_addr(old[a].entries@[b]) == g);
            }
        }
    }
    assert forall|p: int| 0 <= p < VA_PAGES implies #[trigger] leaf_entry(new, p) == leaf_entry(old, p) by {
        lemma_index_bounds(p);
        let e2o = old[0].entries@[idx2(p)];
        let e2n = new[0].entries@[idx2(p)];
        if k == 0 && idx2(p) == i {
            assert(leaf_table(old, p) is None);
            assert(table_at(new, pte_addr(e2n)) == n);
            assert(new[n].entries@[idx1(p)] == 0u64);
            assert(leaf_table(new, p) is None);
        } else {
            assert(e2n == e2o) by {
                if k != 0 {
                    assert(new[0] == old[0]);
                }
            }
            if pte_valid(e2o) {
                assert(is_pde(old, 0, idx2(p)));
                assert(pde_ok(old, 0, idx2(p)));
                let m = pde_target(old, 0, idx2(p));
                assert(table_at(new, old[m].addr as int) == m);
                assert(table_at(new, pte_addr(e2n)) == m);
                assert(old[m].level == 1);
                assert(m != 0);
                let e1o = old[m].entries@[idx1(p)];
                let e1n = new[m].entries@[idx1(p)];
                if m == k && idx1(p) == i {
                    assert(leaf_table(old, p) is None);
                    assert(table_at(new, pte_addr(e1n)) == n);
                    assert(new[n].entries@[idx0(p)] == 0u64);
                    assert(leaf_entry(new, p) is None);
                } else {
                    assert(e1n == e1o) by {
                        if m != k {
                            assert(new[m] == old[m]);
                        }
                    }
                    if pte_valid(e1o) {
                        assert(is_pde(old, m, idx1(p)));
                        assert(pde_ok(old, m, idx1(p)));
                        let l = pde_target(old, m, idx1(p));
                        assert(table_at(new, old[l].addr as int) == l);
                        assert(old[l].level == 0);
                        assert(l != k);
                        assert(new[l] == old[l]);
                    }
                }
            }
        }
    }
    assert(mapping(new) =~= mapping(old));
    if leaves_apart(old) {
        assert forall|k1: int, i1: int, k2: int, i2: int|
            0 <= k1 < new.len() && 0 <= k2 < new.len() && 0 <= i1 < 512 && 0 <= i2 < 512 && (k1, i1) != (k2, i2)
                && new[k1].level == 0 && new[k2].level == 0 && pte_valid(new[k1].entries@[i1]) && pte_valid(
                new[k2].entries@[i2],
            ) implies #[trigger] pte_addr(new[k1].entries@[i1]) != #[trigger] pte_addr(new[k2].entries@[i2]) by {
            if k1 == n {
                assert(new[n].entries@[i1] == 0u64);
            }
            if k2 == n {
                assert(new[n].entries@[i2] == 0u64);
            }
            assert(k1 != k && k2 != k);
            assert(new[k1] == old[k1]);
            assert(new[k2] == old[k2]);
        }
        assert forall|k1: int, i1: int, k2: int|
            0 <= k1 < new.len() && 0 <= k2 < new.len() && 0 <= i1 < 512 && new[k1].level == 0 && pte_valid(
                new[k1].entries@[i1],
            ) implies #[trigger] pte_addr(new[k1].entries@[i1]) != #[trigger] new[k2].addr by {
            if k1 == n {
                assert(new[n].entries@[i1] == 0u64);
            }
            assert(k1 != k);
            assert(new[k1] == old[k1]);
            if k2 == n {
                if pte_addr(old[k1].entries@[i1]) == f {
                    assert(frame_used(old, f));
                }
            } else {
                assert(new[k2].addr == old[k2].addr);
            }
        }
    }
}

impl PageTables {
    /// A tree of an empty root table in a frame from `frames`; `None` when
    /// the pool is empty.
    pub fn new(frames: &mut FramePool) -> (r: Option<Self>)
        requires
            old(frames).wf(),
        ensures
            final(frames).wf(),
            old(frames).frames().len() == 0 <==> r is None,
            r is None ==> final(frames).frames() == old(frames).frames(),
            r matches Some(pt) ==> pt.wf() && pt@ == Map::<int, u64>::empty() && pt.apart(*final(frames))
                && final(frames).frames() == old(frames).frames().drop_last(),
    {
        let f = match frames.take() {
            Some(f) => f,
            None => {
                return None;
            },
        };
        let ghost old_free = old(frames).frames();
        proof {
            assert(frame_ok(old_free[old_free.len() - 1]));
        }
        let root = PageTable { addr: f, level: 2, entries: vec![0u64; 512], parent: Ghost((0int, 0int)) };
        let mut tables: Vec<PageTable> = Vec::new();
        tables.push(root);
        let pt = PageTables { tables };
        proof {
            lemma_zero_invalid();
            let t = pt.tables@;
            assert(t[0].entries@ =~= Seq::new(512, |x: int| 0u64));
            assert forall|k: int, i: int| 0 <= k < t.len() && 0 <= i < 512 && #[trigger] is_pde(t, k, i) implies pde_ok(
                t,
                k,
                i,
            ) by {
                assert(t[0].entries@[i] == 0u64);
            }
            assert(tree_ok(t));
            assert forall|p: int| 0 <= p < VA_PAGES implies #[trigger] leaf_entry(t, p) is None by {
                lemma_index_bounds(p);
                assert(t[0].entries@[idx2(p)] == 0u64);
            }
            assert(mapping(t) =~= Map::<int, u64>::empty());
            assert forall|i: int| 0 <= i < frames.frames().len() implies !frame_used(t, #[trigger] frames.frames()[i]) by {
                assert(frames.frames()[i] == old_free[i]);
                assert(old_free[i] != old_free[old_free.len() - 1]);
                if exists|k: int, j: int|
                    0 <= k < t.len() && 0 <= j < 512 && t[k].level == 0 && pte_valid(t[k].entries@[j]) && #[trigger] pte_addr(
                        t[k].entries@[j],
                    ) == frames.frames()[i] {
                    let (k, j) = choose|k: int, j: int|
                        0 <= k < t.len() && 0 <= j < 512 && t[k].level == 0 && pte_valid(t[k].entries@[j]) && #[trigger] pte_addr(
                            t[k].entries@[j],
                        ) == frames.frames()[i];
                    assert(k == 0);
                }
            }
        }
        Some(pt)
    }
}

/// Each valid leaf entry names a frame of its own: no other leaf entry
/// names it and no table lives in it.
pub open spec fn leaves_apart(t: Seq<PageTable>) -> bool {
    &&& forall|k1: int, i1: int, k2: int, i2: int|
        0 <= k1 < t.len() && 0 <= k2 < t.len() && 0 <= i1 < 512 && 0 <= i2 < 512 && (k1, i1) != (k2, i2)
            && t[k1].level == 0 && t[k2].level == 0 && pte_valid(t[k1].entries@[i1]) && pte_valid(t[k2].entries@[i2])
            ==> #[trigger] pte_addr(t[k1].entries@[i1]) != #[trigger] pte_addr(t[k2].entries@[i2])
    &&& forall|k1: int, i1: int, k2: int|
        0 <= k1 < t.len() && 0 <= k2 < t.len() && 0 <= i1 < 512 && t[k1].level == 0 && pte_valid(t[k1].entries@[i1])
            ==> #[trigger] pte_addr(t[k1].entries@[i1]) != #[trigger] t[k2].addr
}

/// `new` is `old` with entry `j` of table `l` replaced by `e`.
pub open spec fn set_at(old: Seq<PageTable>, new: Seq<PageTable>, l: int, j: int, e: u64) -> bool {
    &&& new.len() == old.len()
    &&& forall|k: int| 0 <= k < old.len() && k != l ==> #[trigger] new[k] == old[k]
    &&& new[l].addr == old[l].addr
    &&& new[l].level == old[l].level
    &&& new[l].parent == old[l].parent
    &&& new[l].entries@ == old[l].entries@.update(j, e)
}

/// Two pages whose walks reach the same leaf table at the same index are
/// the same page.
proof fn lemma_leaf_slot(t: Seq<PageTable>, p: int, q: int)
    requires
        tree_ok(t),
        0 <= p < VA_PAGES,
        0 <= q < VA_PAGES,
        leaf_table(t, p) is Some,
        leaf_table(t, p) == leaf_table(t, q),
        idx0(p) == idx0(q),
    ensures
        p == q,
{
    lemma_index_bounds(p);
    lemma_index_bounds(q);
    assert(table_ok(t[0]));
    assert(pte_valid(t[0].entries@[idx2(p)]));
    assert(pte_valid(t[0].entries@[idx2(q)]));
    assert(is_pde(t, 0, idx2(p)));
    assert(pde_ok(t, 0, idx2(p)));
    assert(is_pde(t, 0, idx2(q)));
    assert(pde_ok(t, 0, idx2(q)));
    let mp = pde_target(t, 0, idx2(p));
    let mq = pde_target(t, 0, idx2(q));
    lemma_table_at(t, mp);
    lemma_table_at(t, mq);
    assert(table_ok(t[mp]));
    assert(table_ok(t[mq]));
    assert(pte_valid(t[mp].entries@[idx1(p)]));
    assert(pte_valid(t[mq].entries@[idx1(q)]));
    assert(is_pde(t, mp, idx1(p)));
    assert(pde_ok(t, mp, idx1(p)));
    assert(is_pde(t, mq, idx1(q)));
    assert(pde_ok(t, mq, idx1(q)));
    let l = pde_target(t, mp, idx1(p));
    assert(l == pde_target(t, mq, idx1(q)));
    assert(t[l].parent@ == (mp, idx1(p)));
    assert(mp == mq && idx1(p) == idx1(q));
    assert(t[mp].parent@ == (0int, idx2(p)));
    assert(t[mq].parent@ == (0int, idx2(q)));
    lemma_indices(p, q);
}

/// Replacing the leaf entry of page `p` keeps the tree and changes the
/// mapping at `p` alone.
proof fn lemma_set_leaf(old: Seq<PageTable>, new: Seq<PageTable>, p: int, l: int, e: u64)
    requires
        tree_ok(old),
        0 <= p < VA_PAGES,
        leaf_table(old, p) == Some(l),
        set_at(old, new, l, idx0(p), e),
    ensures
        tree_ok(new),
        leaf_table(new, p) == Some(l),
        mapping(new) == (if pte_valid(e) {
            mapping(old).insert(p, e)
        } else {
            mapping(old).remove(p)
        }),
        forall|x: u64| #[trigger] frame_used(new, x) ==> frame_used(old, x) || (pte_valid(e) && x == pte_addr(e)),
        leaves_apart(old) && (pte_valid(e) ==> !frame_used(old, pte_addr(e) as u64) && pte_addr(e) == pte_addr(e) as u64)
            ==> leaves_apart(new),
{
    lemma_index_bounds(p);
    let j = idx0(p);
    assert(table_ok(old[0]));
    assert(pte_valid(old[0].entries@[idx2(p)]));
    assert(is_pde(old, 0, idx2(p)));
    assert(pde_ok(old, 0, idx2(p)));
    let m = pde_target(old, 0, idx2(p));
    lemma_table_at(old, m);
    assert(table_ok(old[m]));
    assert(pte_valid(old[m].entries@[idx1(p)]));
    assert(is_pde(old, m, idx1(p)));
    assert(pde_ok(old, m, idx1(p)));
    lemma_table_at(old, l);
    assert(old[l].level == 0);
    assert(table_ok(old[l]));
    assert forall|k: int| 0 <= k < new.len() implies #[trigger] new[k].addr == old[k].addr && new[k].level
        == old[k].level && new[k].parent == old[k].parent by {
        if k != l {
            assert(new[k] == old[k]);
        }
    }
    assert forall|k: int, i: int| 0 <= k < new.len() && 0 <= i < 512 && new[k].level >= 1 implies #[trigger] new[k].entries@[i]
        == old[k].entries@[i] by {
        if k != l {
            assert(new[k] == old[k]);
        }
    }
    assert forall|a: int| 0 <= a < new.len() implies table_at(new, #[trigger] old[a].addr as int) == table_at(
        old,
        old[a].addr as int,
    ) by {
        lemma_table_at(old, a);
        assert(new[a].addr == old[a].addr);
        let c = table_at(new, old[a].addr as int);
        assert(0 <= c < new.len() && new[c].addr == old[a].addr);
        if c != a {
            assert(new[c].addr == old[c].addr);
            assert(old[c].addr != old[a].addr);
        }
    }
    assert forall|k: int| 0 <= k < new.len() implies #[trigger] table_ok(new[k]) by {
        assert(table_ok(old[k]));
    }
    assert forall|k1: int, k2: int|
        0 <= k1 < new.len() && 0 <= k2 < new.len() && k1 != k2 implies #[trigger] new[k1].addr != #[trigger] new[k2].addr by {
        assert(new[k1].addr == old[k1].addr);
        assert(new[k2].addr == old[k2].addr);
    }
    assert forall|a: int, b: int| 0 <= a < new.len() && 0 <= b < 512 && #[trigger] is_pde(new, a, b) implies pde_ok(
        new,
        a,
        b,
    ) by {
        assert(new[a].entries@[b] == old[a].entries@[b]);
        assert(is_pde(old, a, b));
        assert(pde_ok(old, a, b));
        let c = pde_target(old, a, b);
        assert(table_at(new, old[c].addr as int) == c);
    }
    assert forall|k: int| 0 < k < new.len() implies #[trigger] new[k].level < 2 by {
        assert(new[k].level == old[k].level);
    }
    assert(tree_ok(new));
    assert forall|q: int| 0 <= q < VA_PAGES implies #[trigger] leaf_table(new, q) == leaf_table(old, q) && (leaf_table(
        old,
        q,
    ) matches Some(x) ==> 0 <= x < old.len()) by {
        lemma_index_bounds(q);
        let e2 = old[0].entries@[idx2(q)];
        assert(new[0].entries@[idx2(q)] == e2);
        if pte_valid(e2) {
            assert(is_pde(old, 0, idx2(q)));
    assert(pde_ok(old, 0, idx2(q)));
            let mq = pde_target(old, 0, idx2(q));
            lemma_table_at(old, mq);
            assert(table_at(new, pte_addr(e2)) == mq);
            assert(new[mq].entries@[idx1(q)] == old[mq].entries@[idx1(q)]);
            if pte_valid(old[mq].entries@[idx1(q)]) {
                assert(is_pde(old, mq, idx1(q)));
    assert(pde_ok(old, mq, idx1(q)));
                let lq = pde_target(old, mq, idx1(q));
                lemma_table_at(old, lq);
            }
        }
    }
    assert forall|q: int| 0 <= q < VA_PAGES && q != p implies #[trigger] leaf_entry(new, q) == leaf_entry(old, q) by {
        lemma_index_bounds(q);
        if let Some(lq) = leaf_table(old, q) {
            if lq == l && idx0(q) == j {
                lemma_leaf_slot(old, p, q);
            }
            if lq != l {
                assert(new[lq] == old[lq]);
            }
        }
    }
    assert(new[l].entries@[j] == e);
    if pte_valid(e) {
        assert(mapping(new) =~= mapping(old).insert(p, e));
    } else {
        assert(mapping(new) =~= mapping(old).remove(p));
    }
    assert forall|x: u64| #[trigger] frame_used(new, x) implies frame_used(old, x) || (pte_valid(e) && x == pte_addr(e)) by {
        if exists|a: int| 0 <= a < new.len() && #[trigger] new[a].addr == x {
            let a = choose|a: int| 0 <= a < new.len() && #[trigger] new[a].addr == x;
            assert(old[a].addr == x);
        } else {
            let (a, b) = choose|a: int, b: int|
                0 <= a < new.len() && 0 <= b < 512 && new[a].level == 0 && pte_valid(new[a].entries@[b]) && #[trigger] pte_addr(
                    new[a].entries@[b],
                ) == x;
            if !(a == l && b == j) {
                if a == l {
                    assert(new[a].entries@[b] == old[a].entries@[b]);
                } else {
                    assert(new[a] == old[a]);
                }
                assert(pte_addr(old[a].entries@[b]) == x);
            }
        }
    }
    if leaves_apart(old) && (pte_valid(e) ==> !frame_used(old, pte_addr(e) as u64) && pte_addr(e) == pte_addr(e) as u64) {
        assert forall|k1: int, i1: int, k2: int, i2: int|
            0 <= k1 < new.len() && 0 <= k2 < new.len() && 0 <= i1 < 512 && 0 <= i2 < 512 && (k1, i1) != (k2, i2)
                && new[k1].level == 0 && new[k2].level == 0 && pte_valid(new[k1].entries@[i1]) && pte_valid(
                new[k2].entries@[i2],
            ) implies #[trigger] pte_addr(new[k1].entries@[i1]) != #[trigger] pte_addr(new[k2].entries@[i2]) by {
            if k1 != l { assert(new[k1] == old[k1]); }
            if k2 != l { assert(new[k2] == old[k2]); }
            if k1 == l && i1 == j {
                assert(old[k2].level == 0);
                if k2 == l { assert(new[k2].entries@[i2] == old[k2].entries@[i2]); }
                assert(pte_addr(old[k2].entries@[i2]) == pte_addr(new[k2].entries@[i2]));
                if pte_addr(e) == pte_addr(old[k2].entries@[i2]) {
                    assert(frame_used(old, pte_addr(e) as u64));
                }
            } else if k2 == l && i2 == j {
                if k1 == l { assert(new[k1].entries@[i1] == old[k1].entries@[i1]); }
                assert(pte_addr(old[k1].entries@[i1]) == pte_addr(new[k1].entries@[i1]));
                if pte_addr(e) == pte_addr(old[k1].entries@[i1]) {
                    assert(frame_used(old, pte_addr(e) as u64));
                }
            } else {
                if k1 == l { assert(new[k1].entries@[i1] == old[k1].entries@[i1]); }
                if k2 == l { assert(new[k2].entries@[i2] == old[k2].entries@[i2]); }
            }
        }
        assert forall|k1: int, i1: int, k2: int|
            0 <= k1 < new.len() && 0 <= k2 < new.len() && 0 <= i1 < 512 && new[k1].level == 0 && pte_valid(
                new[k1].entries@[i1],
            ) implies #[trigger] pte_addr(new[k1].entries@[i1]) != #[trigger] new[k2].addr by {
            if k1 != l { assert(new[k1] == old[k1]); }
            assert(new[k2].addr == old[k2].addr);
            if k1 == l && i1 == j {
                if pte_addr(e) == old[k2].addr {
                    assert(frame_used(old, pte_addr(e) as u64));
                }
            } else if k1 == l {
                assert(new[k1].entries@[i1] == old[k1].entries@[i1]);
            }
        }
    }
}

impl PageTables {
    /// The index of the table that lives in frame `addr`.
    fn find_table(&self, addr: u64) -> (r: usize)
        requires
            tree_ok(self.tables@),
            exists|k: int| 0 <= k < self.tables@.len() && self.tables@[k].addr == addr,
        ensures
            r < self.tables@.len(),
            self.tables@[r as int].addr == addr,
            r == table_at(self.tables@, addr as int),
    {
        let mut k: usize = 0;
        while k < self.tables.len()
            invariant
                tree_ok(self.tables@),
                k <= self.tables@.len(),
                forall|j: int| 0 <= j < k ==> self.tables@[j].addr != addr,
            decreases self.tables@.len() - k,
        {
            if self.tables[k].addr == addr {
                proof {
                    lemma_table_at(self.tables@, k as int);
                }
                return k;
            }
            k = k + 1;
        }
        proof {
            let w = choose|j: int| 0 <= j < self.tables@.len() && self.tables@[j].addr == addr;
            assert(self.tables@[w].addr != addr);
        }
        0
    }

    /// Replaces entry `i` of table `k` by `e`.
    fn set_entry(&mut self, k: usize, i: usize, e: u64)
        requires
            k < old(self).tables@.len(),
            i < old(self).tables@[k as int].entries@.len(),
        ensures
            set_at(old(self).tables@, final(self).tables@, k as int, i as int, e),
    {
        let mut entries = self.tables[k].entries.clone();
        entries.set(i, e);
        let tb = PageTable {
            addr: self.tables[k].addr,
            level: self.tables[k].level,
            entries,
            parent: self.tables[k].parent,
        };
        self.tables.set(k, tb);
        proof {
            assert(self.tables@[k as int].entries@ =~= old(self).tables@[k as int].entries@.update(i as int, e));
        }
    }

    /// The table that entry `i` of table `k` names, made in a frame of
    /// `frames` when the entry is not valid; `None` when that takes a frame
    /// and there is none.
    fn descend(&mut self, k: usize, i: usize, frames: &mut FramePool) -> (r: Option<usize>)
        requires
            old(self).wf(),
            old(frames).wf(),
            old(self).apart(*old(frames)),
            k < old(self).tables@.len(),
            i < 512,
            old(self).tables@[k as int].level >= 1,
        ensures
            final(self).wf(),
            final(frames).wf(),
            final(self).apart(*final(frames)),
            mapping(final(self).tables@) == mapping(old(self).tables@),
            r matches Some(j) ==> j < final(self).tables@.len() && is_pde(final(self).tables@, k as int, i as int)
                && j == pde_target(final(self).tables@, k as int, i as int),
            pte_valid(old(self).tables@[k as int].entries@[i as int]) ==> r is Some && final(self).tables@ == old(
                self,
            ).tables@ && final(frames).frames() == old(frames).frames(),
            !pte_valid(old(self).tables@[k as int].entries@[i as int]) && old(frames).frames().len() > 0 ==> r is Some
                && grown(
                old(self).tables@,
                final(self).tables@,
                k as int,
                i as int,
                old(frames).frames().last(),
            ) && final(frames).frames() == old(frames).frames().drop_last(),
            !pte_valid(old(self).tables@[k as int].entries@[i as int]) && old(frames).frames().len() == 0 ==> r is None
                && final(self).tables@ == old(self).tables@ && final(frames).frames() == old(frames).frames(),
    {
        proof {
            assert(table_ok(self.tables@[k as int]));
        }
        let e = self.tables[k].entries[i];
        if e & 1 != 0 {
            proof {
                assert(is_pde(self.tables@, k as int, i as int));
                assert(pde_ok(self.tables@, k as int, i as int));
                let j = pde_target(self.tables@, k as int, i as int);
                assert(self.tables@[j].addr == pte_addr(e));
            }
            let a = (e >> 10) * 4096;
            proof {
                let j = pde_target(self.tables@, k as int, i as int);
                assert(frame_ok(self.tables@[j].addr)) by {
                    assert(table_ok(self.tables@[j]));
                }
            }
            let j = self.find_table(a);
            return Some(j);
        }
        let ghost t0 = self.tables@;
        let ghost free0 = frames.frames();
        let f = match frames.take() {
            Some(f) => f,
            None => {
                return None;
            },
        };
        proof {
            assert(frame_ok(free0[free0.len() - 1]));
            assert(!frame_used(t0, f));
        }
        let lvl = self.tables[k].level - 1;
        let tb = PageTable { addr: f, level: lvl, entries: vec![0u64; 512], parent: Ghost((k as int, i as int)) };
        self.tables.push(tb);
        let pde = ((f / 4096) << 10) | 1;
        self.set_entry(k, i, pde);
        let n = self.tables.len() - 1;
        proof {
            let t = self.tables@;
            assert(t[n as int].entries@ =~= Seq::new(512, |x: int| 0u64));
            assert forall|j: int| 0 <= j < t0.len() && j != k implies #[trigger] t[j] == t0[j] by {}
            assert(grown(t0, t, k as int, i as int, f));
            lemma_grow(t0, t, k as int, i as int, f);
            lemma_make_entry(f, PTE_VALID);
            assert(PTE_VALID & 1 != 0) by (bit_vector);
            assert(is_pde(t, k as int, i as int));
            assert forall|x: int| 0 <= x < frames.frames().len() implies !frame_used(t, #[trigger] frames.frames()[x]) by {
                assert(frames.frames()[x] == free0[x]);
                assert(free0[x] != free0[free0.len() - 1]);
                assert(!frame_used(t0, free0[x]));
            }
        }
        Some(n)
    }

    /// The level-0 table of the walk of page `p`, with the tables on the
    /// way made in frames of `frames` where missing; when a table is
    /// missing and no frame is left, which one: the level-1 table under
    /// the root, or the level-0 table below it.
    fn walk_alloc(&mut self, p: u64, frames: &mut FramePool) -> (r: Result<usize, MissingTable>)
        requires
            old(self).wf(),
            old(frames).wf(),
            old(self).apart(*old(frames)),
            p < VA_PAGES,
        ensures
            final(self).wf(),
            final(frames).wf(),
            final(self).apart(*final(frames)),
            mapping(final(self).tables@) == mapping(old(self).tables@),
            final(frames).frames().len() + 2 >= old(frames).frames().len(),
            final(frames).frames().len() <= old(frames).frames().len(),
            final(frames).frames() == old(frames).frames().subrange(0, final(frames).frames().len() as int),
            r matches Ok(l) ==> l < final(self).tables@.len() && leaf_table(final(self).tables@, p as int) == Some(
                l as int,
            ) && final(self).tables@[l as int].level == 0,
            r is Err ==> old(frames).frames().len() < 2,
            r is Ok ==> final(frames).frames().len() == old(frames).frames().len() - walk_need(old(self).tables@, p as int),
            r is Err ==> old(frames).frames().len() < walk_need(old(self).tables@, p as int),
            forall|x: int|
                0 <= x < VA_PAGES && x / 512 != p / 512 ==> (#[trigger] leaf_table(final(self).tables@, x) is Some)
                    == (leaf_table(old(self).tables@, x) is Some),
            forall|x: int|
                0 <= x < VA_PAGES && idx2(x) != idx2(p as int) ==> #[trigger] final(self).tables@[0].entries@[idx2(x)]
                    == old(self).tables@[0].entries@[idx2(x)],
    {
        let ghost free0 = frames.frames();
        let ghost t0 = self.tables@;
        let i2 = (p / 0x40000) as usize;
        let i1 = ((p / 512) % 512) as usize;
        proof {
            lemma_index_bounds(p as int);
            assert(table_ok(t0[0]));
            if free0.len() > 0 {
                assert(frame_ok(free0[free0.len() - 1]));
                assert(!frame_used(t0, free0[free0.len() - 1]));
            }
        }
        let m = match self.descend(0, i2, frames) {
            Some(m) => m,
            None => {
                return Err(MissingTable::Middle);
            },
        };
        let ghost free1 = frames.frames();
        let ghost t1 = self.tables@;
        proof {
            let t = self.tables@;
            assert(pde_ok(t, 0, i2 as int));
            assert(t[m as int].level == 1);
            assert(free1 =~= free0.subrange(0, free1.len() as int));
            if !pte_valid(t0[0].entries@[i2 as int]) {
                let f = free0[free0.len() - 1];
                assert forall|x: int| 0 <= x < VA_PAGES && x / 512 != p / 512 implies (#[trigger] leaf_table(t1, x) is Some)
                    == (leaf_table(t0, x) is Some) && t1[0].entries@[idx2(x)] == t0[0].entries@[idx2(x)] || idx2(x)
                    == idx2(p as int) by {
                    lemma_walk_grow(t0, t1, 0, i2 as int, f, p as int, x);
                }
                assert forall|x: int| 0 <= x < VA_PAGES && idx2(x) != idx2(p as int) implies #[trigger] t1[0].entries@[idx2(x)]
                    == t0[0].entries@[idx2(x)] by {
                    lemma_index_bounds(x);
                }
                // the fresh level-1 table has no valid entry
                lemma_zero_invalid();
                lemma_grow(t0, t1, 0, i2 as int, f);
                assert(m as int == t0.len());
                assert(t1[m as int].entries@[i1 as int] == 0u64);
            }
            if free1.len() > 0 {
                assert(frame_ok(free1[free1.len() - 1]));
                assert(!frame_used(t1, free1[free1.len() - 1]));
            }
        }
        let l = match self.descend(m, i1, frames) {
            Some(l) => l,
            None => {
                return Err(MissingTable::Last);
            },
        };
        proof {
            let t2 = self.tables@;
            if !pte_valid(t1[m as int].entries@[i1 as int]) {
                let f = free1[free1.len() - 1];
                lemma_target(t1, 0, i2 as int);
                assert forall|x: int| 0 <= x < VA_PAGES && x / 512 != p / 512 implies (#[trigger] leaf_table(t2, x) is Some)
                    == (leaf_table(t1, x) is Some) && t2[0].entries@[idx2(x)] == t1[0].entries@[idx2(x)] by {
                    lemma_walk_grow(t1, t2, m as int, i1 as int, f, p as int, x);
                }
            }
        }
        proof {
            let t = self.tables@;
            assert(pde_ok(t, m as int, i1 as int));
            assert(t[l as int].level == 0);
            assert(is_pde(t, 0, i2 as int)) by {
                // the root entry stays a directory entry when a table is
                // added below table `m`
                assert(m != 0);
            }
            assert(frames.frames() =~= free0.subrange(0, frames.frames().len() as int));
            assert(table_at(t, pte_addr(t[0].entries@[i2 as int])) == m);
        }
        Ok(l)
    }
}

/// Clearing the only leaf entry that names a frame leaves the frame unused.
proof fn lemma_clear_frees(old: Seq<PageTable>, new: Seq<PageTable>, p: int, l: int, g: u64)
    requires
        tree_ok(old),
        leaves_apart(old),
        0 <= p < VA_PAGES,
        leaf_table(old, p) == Some(l),
        0 <= l < old.len(),
        old[l].level == 0,
        pte_valid(old[l].entries@[idx0(p)]),
        pte_addr(old[l].entries@[idx0(p)]) == g,
        set_at(old, new, l, idx0(p), 0),
    ensures
        !frame_used(new, g),
{
    lemma_index_bounds(p);
    lemma_zero_invalid();
    assert(table_ok(old[l]));
    if exists|a: int| 0 <= a < new.len() && #[trigger] new[a].addr == g {
        let a = choose|a: int| 0 <= a < new.len() && #[trigger] new[a].addr == g;
        if a != l {
            assert(new[a] == old[a]);
        }
        assert(old[a].addr == g);
    }
    if exists|a: int, b: int|
        0 <= a < new.len() && 0 <= b < 512 && new[a].level == 0 && pte_valid(new[a].entries@[b]) && #[trigger] pte_addr(
            new[a].entries@[b],
        ) == g {
        let (a, b) = choose|a: int, b: int|
            0 <= a < new.len() && 0 <= b < 512 && new[a].level == 0 && pte_valid(new[a].entries@[b]) && #[trigger] pte_addr(
                new[a].entries@[b],
            ) == g;
        if a == l && b == idx0(p) {
            assert(new[l].entries@[b] == 0u64);
        } else {
            if a == l {
                assert(new[a].entries@[b] == old[a].entries@[b]);
            } else {
                assert(new[a] == old[a]);
            }
            assert(pte_addr(old[a].entries@[b]) == g);
        }
    }
}

/// The pages from `s` up to `e`.
pub open spec fn page_range(s: int, e: int) -> Set<int> {
    Set::new(|q: int| s <= q < e)
}

/// Page `q` of the mapping `m` names a frame that a pool may hold.
pub open spec fn frame_of_ok(m: Map<int, u64>, q: int) -> bool {
    m.dom().contains(q) ==> pte_addr(m[q]) < FRAME_LIMIT && pte_addr(m[q]) != 0
}

impl PageTables {
    /// The level-0 table of the walk of page `p`, if its directory entries
    /// are valid.
    fn leaf_of(&self, p: u64) -> (r: Option<usize>)
        requires
            self.wf(),
            p < VA_PAGES,
        ensures
            r is None ==> leaf_table(self.tables@, p as int) is None,
            r matches Some(l) ==> l < self.tables@.len() && leaf_table(self.tables@, p as int) == Some(l as int)
                && self.tables@[l as int].level == 0,
    {
        let i2 = (p / 0x40000) as usize;
        let i1 = ((p / 512) % 512) as usize;
        proof {
            lemma_index_bounds(p as int);
            assert(table_ok(self.tables@[0]));
        }
        let e2 = self.tables[0].entries[i2];
        if e2 & 1 == 0 {
            return None;
        }
        proof {
            assert(is_pde(self.tables@, 0, i2 as int));
            assert(pde_ok(self.tables@, 0, i2 as int));
            let j = pde_target(self.tables@, 0, i2 as int);
            assert(table_ok(self.tables@[j]));
        }
        let m = self.find_table((e2 >> 10) * 4096);
        proof {
            assert(table_ok(self.tables@[m as int]));
        }
        let e1 = self.tables[m].entries[i1];
        if e1 & 1 == 0 {
            return None;
        }
        proof {
            assert(self.tables@[m as int].level == 1);
            assert(is_pde(self.tables@, m as int, i1 as int));
            assert(pde_ok(self.tables@, m as int, i1 as int));
            let j = pde_target(self.tables@, m as int, i1 as int);
            assert(table_ok(self.tables@[j]));
        }
        let l = self.find_table((e1 >> 10) * 4096);
        Some(l)
    }

    /// Unmaps the pages from `start_va` over `size` bytes, giving the frame
    /// of each mapped one back to `frames`.
    pub fn vunmap(&mut self, start_va: u64, size: u64, frames: &mut FramePool)
        requires
            old(self).wf(),
            old(frames).wf(),
            old(self).apart(*old(frames)),
            start_va % 4096 == 0,
            size % 4096 == 0,
            start_va + size <= VA_PAGES * 4096,
            forall|q: int| start_va / 4096 <= q < (start_va + size) / 4096 ==> #[trigger] frame_of_ok(old(self)@, q),
        ensures
            final(self).wf(),
            final(frames).wf(),
            final(self).apart(*final(frames)),
            final(self)@ == old(self)@.remove_keys(page_range(start_va as int / 4096, (start_va + size) / 4096)),
    {
        let s = start_va / 4096;
        let e = (start_va + size) / 4096;
        let mut q = s;
        while q < e
            invariant
                self.wf(),
                frames.wf(),
                self.apart(*frames),
                s <= q <= e,
                e <= VA_PAGES,
                s == start_va / 4096,
                e == (start_va + size) / 4096,
                forall|x: int| q <= x < e ==> #[trigger] frame_of_ok(old(self)@, x),
                mapping(self.tables@) == old(self)@.remove_keys(page_range(s as int, q as int)),
            decreases e - q,
        {
            let ghost t0 = self.tables@;
            match self.leaf_of(q) {
                Some(l) => {
                    let j = (q % 512) as usize;
                    proof {
                        assert(table_ok(self.tables@[l as int]));
                    }
                    let ent = self.tables[l].entries[j];
                    if ent & 1 != 0 {
                        proof {
                            assert(leaf_entry(t0, q as int) == Some(ent));
                            assert(mapping(t0).dom().contains(q as int));
                            assert(mapping(t0)[q as int] == ent);
                            assert(!page_range(s as int, q as int).contains(q as int));
                            assert(old(self)@.dom().contains(q as int));
                            assert(frame_of_ok(old(self)@, q as int));
                            assert(old(self)@[q as int] == ent);
                        }
                        let a = (ent >> 10) * 4096;
                        proof {
                            assert(frame_used(t0, a));
                            assert(!frames.frames().contains(a)) by {
                                if frames.frames().contains(a) {
                                    let x = choose|x: int| 0 <= x < frames.frames().len() && frames.frames()[x] == a;
                                    assert(!frame_used(t0, frames.frames()[x]));
                                }
                            }
                            assert(a % 4096 == 0) by (nonlinear_arith)
                                requires
                                    a == (ent >> 10) * 4096,
                            ;
                        }
                        let ghost free0 = frames.frames();
                        frames.give_back(a);
                        self.set_entry(l, j, 0);
                        proof {
                            let t = self.tables@;
                            lemma_zero_invalid();
                            lemma_set_leaf(t0, t, q as int, l as int, 0);
                            lemma_clear_frees(t0, t, q as int, l as int, a);
                            assert forall|x: int| 0 <= x < frames.frames().len() implies !frame_used(
                                t,
                                #[trigger] frames.frames()[x],
                            ) by {
                                if x < free0.len() {
                                    assert(frames.frames()[x] == free0[x]);
                                    assert(!frame_used(t0, free0[x]));
                                }
                            }
                            assert(mapping(t) =~= old(self)@.remove_keys(page_range(s as int, q + 1)));
                        }
                    } else {
                        proof {
                            assert(!mapping(t0).dom().contains(q as int));
                            assert(mapping(t0) =~= old(self)@.remove_keys(page_range(s as int, q + 1)));
                        }
                    }
                },
                None => {
                    proof {
                        assert(!mapping(t0).dom().contains(q as int));
                        assert(mapping(t0) =~= old(self)@.remove_keys(page_range(s as int, q + 1)));
                    }
                },
            }
            q = q + 1;
        }
    }
}

/// Each page from `s` up to `q` is mapped in `m` with flag bits `bits`
/// to a frame that came out of `pool` at an index from `len` on.
pub open spec fn fresh_run(m: Map<int, u64>, s: int, q: int, bits: u64, pool: Seq<u64>, len: int) -> bool {
    forall|x: int| s <= x < q ==> #[trigger] m.dom().contains(x) && m[x] & FLAGS_MASK == bits && from_pool(m, x, pool, len)
}

/// A run stays fresh when fewer frames are left in the pool.
proof fn lemma_fresh_shrink(m: Map<int, u64>, s: int, q: int, bits: u64, pool: Seq<u64>, len: int, len2: int)
    requires
        fresh_run(m, s, q, bits, pool, len),
        len2 <= len,
    ensures
        fresh_run(m, s, q, bits, pool, len2),
{
    assert forall|x: int| s <= x < q implies #[trigger] m.dom().contains(x) && m[x] & FLAGS_MASK == bits && from_pool(
        m,
        x,
        pool,
        len2,
    ) by {
        assert(m.dom().contains(x));
        let i = choose|i: int| len <= i < pool.len() && pool[i] as int == pte_addr(m[x]);
    }
}

/// A run grows by page `q` mapped with `bits` to the frame at index `len2`
/// of the pool, once the pool holds fewer than `len2 + 1` frames.
proof fn lemma_fresh_grow(m: Map<int, u64>, s: int, q: int, bits: u64, pool: Seq<u64>, len: int, ne: u64)
    requires
        fresh_run(m, s, q, bits, pool, len),
        0 < len <= pool.len(),
        s <= q,
        ne & FLAGS_MASK == bits,
        pte_addr(ne) == pool[len - 1] as int,
    ensures
        fresh_run(m.insert(q, ne), s, q + 1, bits, pool, len - 1),
{
    let m2 = m.insert(q, ne);
    assert forall|x: int| s <= x < q + 1 implies #[trigger] m2.dom().contains(x) && m2[x] & FLAGS_MASK == bits
        && from_pool(m2, x, pool, len - 1) by {
        if x == q {
            assert(len - 1 <= len - 1 < pool.len() && pool[len - 1] as int == pte_addr(m2[x]));
        } else {
            assert(m.dom().contains(x));
            let i = choose|i: int| len <= i < pool.len() && pool[i] as int == pte_addr(m[x]);
            assert(len - 1 <= i < pool.len() && pool[i] as int == pte_addr(m2[x]));
        }
    }
}

/// Page `x` of a range from page `s` is the first of the range under its
/// root entry, and that entry is not valid: mapping it makes a level-1
/// table.
pub open spec fn needs_mid(t: Seq<PageTable>, s: int, x: int) -> bool {
    (x == s || x % 0x40000 == 0) && !pte_valid(t[0].entries@[idx2(x)])
}

/// Page `x` of a range from page `s` is the first of the range in its
/// 2 MiB region, and the walk to it finds no level-0 table: mapping it
/// makes one.
pub open spec fn needs_last(t: Seq<PageTable>, s: int, x: int) -> bool {
    (x == s || x % 512 == 0) && leaf_table(t, x) is None
}

/// The number of tables that mapping pages `s` up to `q` in order makes
/// in the tree `t`.
pub open spec fn tables_needed(t: Seq<PageTable>, s: int, q: int) -> int
    decreases q - s,
{
    if q <= s {
        0
    } else {
        tables_needed(t, s, q - 1) + (if needs_mid(t, s, q - 1) {
            1int
        } else {
            0int
        }) + (if needs_last(t, s, q - 1) {
            1int
        } else {
            0int
        })
    }
}

/// Mapping more pages makes no fewer tables.
proof fn lemma_needed_mono(t: Seq<PageTable>, s: int, a: int, b: int)
    requires
        s <= a <= b,
    ensures
        0 <= tables_needed(t, s, a) <= tables_needed(t, s, b),
    decreases b - a,
{
    if a < b {
        lemma_needed_mono(t, s, a, b - 1);
    } else {
        lemma_needed_nonneg(t, s, a);
    }
}

/// No range makes a negative number of tables.
proof fn lemma_needed_nonneg(t: Seq<PageTable>, s: int, a: int)
    ensures
        0 <= tables_needed(t, s, a),
    decreases a - s,
{
    if a > s {
        lemma_needed_nonneg(t, s, a - 1);
    }
}

/// Which table of a walk could not be made for want of a frame.
enum MissingTable {
    /// The level-1 table, under the root.
    Middle,
    /// The level-0 table, under a level-1 table.
    Last,
}

/// The flag bits of a leaf entry that `vmap` makes for `perm`: the bits of
/// `perm`, made valid.
pub open spec fn vmap_bits(perm: EntryPerm) -> u64 {
    perm_bits(EntryPerm { valid: true, ..perm })
}

/// The frame that page `q` maps in `m` came out of `pool` at an index from
/// `len` on.
pub open spec fn from_pool(m: Map<int, u64>, q: int, pool: Seq<u64>, len: int) -> bool {
    exists|i: int| len <= i < pool.len() && pool[i] as int == pte_addr(m[q])
}

/// Unmapping the first pages of a fresh run leaves the rest of the run
/// mapped over what was there before.
proof fn lemma_rollback(
    m0: Map<int, u64>,
    mb: Map<int, u64>,
    mf: Map<int, u64>,
    s: int,
    brk: int,
    q: int,
    bits: u64,
    pool: Seq<u64>,
    len: int,
)
    requires
        fresh_run(mb, s, q, bits, pool, len),
        mb.remove_keys(page_range(s, q)) == m0.remove_keys(page_range(s, q)),
        forall|x: int| s <= x < q ==> !#[trigger] m0.dom().contains(x),
        mf == mb.remove_keys(page_range(s, brk)),
        s <= brk <= q,
        0 <= len,
    ensures
        mf.remove_keys(page_range(brk, q)) == m0,
        forall|x: int|
            brk <= x < q ==> #[trigger] mf.dom().contains(x) && mf[x] & FLAGS_MASK == bits && from_pool(mf, x, pool, 0),
{
    let rq = page_range(s, q);
    let rb = page_range(brk, q);
    let rs = page_range(s, brk);
    assert forall|x: int| brk <= x < q implies #[trigger] mf.dom().contains(x) && mf[x] & FLAGS_MASK == bits && from_pool(
        mf,
        x,
        pool,
        0,
    ) by {
        assert(s <= x < q);
        assert(mb.dom().contains(x));
        assert(mb[x] & FLAGS_MASK == bits);
        assert(from_pool(mb, x, pool, len));
        assert(!rs.contains(x));
        assert(mf.dom().contains(x));
        assert(mf[x] == mb[x]);
        let i = choose|i: int| len <= i < pool.len() && pool[i] as int == pte_addr(mb[x]);
        assert(0 <= i < pool.len() && pool[i] as int == pte_addr(mf[x]));
    }
    assert forall|x: int| #![auto] mf.remove_keys(rb).dom().contains(x) == m0.dom().contains(x) by {
        if rq.contains(x) {
            assert(!m0.dom().contains(x));
            if x < brk {
                assert(rs.contains(x));
            } else {
                assert(rb.contains(x));
            }
        } else {
            assert(!rb.contains(x));
            assert(!rs.contains(x));
            assert(mb.remove_keys(rq).dom().contains(x) == mb.dom().contains(x));
            assert(m0.remove_keys(rq).dom().contains(x) == m0.dom().contains(x));
        }
    }
    assert forall|x: int| #![auto] m0.dom().contains(x) implies mf.remove_keys(rb)[x] == m0[x] by {
        assert(!rq.contains(x));
        assert(!rb.contains(x));
        assert(!rs.contains(x));
        assert(mb.remove_keys(rq)[x] == mb[x]);
        assert(m0.remove_keys(rq)[x] == m0[x]);
    }
    assert(mf.remove_keys(rb) =~= m0);
}

impl PageTables {
    /// Maps each page from `start_va` over `size` bytes to a fresh frame of
    /// `frames`, with `perm` made valid, page by page in order; it takes a
    /// frame for each page and one for each table it makes
    /// (`tables_needed`). A page already mapped is `InvalidArgument`;
    /// running out of frames is `OutOfMemory`. On an error the pages mapped so far are unmapped
    /// again up to a break page, their frames given back, and those from
    /// the break on stay mapped: the break is the page that failed, but
    /// where a table on its way could not be made it is `start_va` itself
    /// when that table is a level-1 table or the page lies under the same
    /// root entry as `start_va`.
    #[verifier::spinoff_prover]
    #[verifier::rlimit(60)]
    pub fn vmap(&mut self, start_va: u64, size: u64, perm: EntryPerm, frames: &mut FramePool) -> (r: Result<
        (),
        SysError,
    >)
        requires
            old(self).wf(),
            old(frames).wf(),
            old(self).apart(*old(frames)),
            start_va % 4096 == 0,
            size % 4096 == 0,
            start_va + size <= VA_PAGES * 4096,
        ensures
            final(self).wf(),
            final(frames).wf(),
            final(self).apart(*final(frames)),
            ({
                let s = start_va / 4096;
                let e = (start_va + size) / 4096;
                let range = page_range(s as int, e as int);
                &&& r is Ok ==> final(self)@.remove_keys(range) == old(self)@.remove_keys(range) && forall|q: int|
                    s <= q < e ==> #[trigger] final(self)@.dom().contains(q) && final(self)@[q] & FLAGS_MASK
                        == vmap_bits(perm) && from_pool(final(self)@, q, old(frames).frames(), final(frames).frames().len() as int)
                &&& (r matches Err(err) && err.kind == SysErrorKind::InvalidArgument ==> final(self)@ == old(self)@)
                &&& r is Err ==> exists|b: int, q: int|
                    #![trigger page_range(b, q)]
                    s <= b <= q <= e && (b == s || b == q) && final(self)@.remove_keys(page_range(b, q)) == old(self)@
                        && forall|x: int|
                        b <= x < q ==> #[trigger] final(self)@.dom().contains(x) && final(self)@[x] & FLAGS_MASK
                            == vmap_bits(perm) && from_pool(final(self)@, x, old(frames).frames(), 0)
                &&& (r matches Err(err) ==> err.kind == SysErrorKind::InvalidArgument || err.kind
                    == SysErrorKind::OutOfMemory)
                &&& (r matches Err(err) && err.kind == SysErrorKind::InvalidArgument ==> exists|q: int|
                    s <= q < e && #[trigger] old(self)@.dom().contains(q))
                &&& (exists|q: int| s <= q < e && #[trigger] old(self)@.dom().contains(q)) ==> r is Err
                &&& r is Ok ==> final(frames).frames().len() == old(frames).frames().len() - (e - s) - tables_needed(
                    old(self).tables(),
                    s as int,
                    e as int,
                )
                &&& !(exists|q: int| s <= q < e && #[trigger] old(self)@.dom().contains(q)) ==> (r is Ok <==> old(
                    frames,
                ).frames().len() >= (e - s) + tables_needed(old(self).tables(), s as int, e as int))
                &&& old(frames).frames().len() >= (e - s) + tables_needed(old(self).tables(), s as int, e as int) ==> ((
                exists|q: int| s <= q < e && #[trigger] old(self)@.dom().contains(q)) <==> (r matches Err(err)
                    && err.kind == SysErrorKind::InvalidArgument))
            }),
    {
        let s = start_va / 4096;
        let e = (start_va + size) / 4096;
        let ghost free0 = frames.frames();
        let ghost m0 = mapping(self.tables@);
        let ghost t0 = self.tables@;
        let bits = ArchEntryPerm::from_perm(
            EntryPerm {
                valid: true,
                readable: perm.readable,
                writable: perm.writable,
                executable: perm.executable,
                user: perm.user,
            },
        ).0;
        proof {
            assert(EntryPerm { valid: true, ..perm } == EntryPerm {
                valid: true,
                readable: perm.readable,
                writable: perm.writable,
                executable: perm.executable,
                user: perm.user,
            });
            let u: u64 = if perm.user { 16 } else { 0 };
            let w: u64 = if perm.writable { 4 } else { 0 };
            let rd: u64 = if perm.readable { 2 } else { 0 };
            let x: u64 = if perm.executable { 8 } else { 0 };
            assert(bits == u | 1u64 | w | rd | x);
            assert((u | 1u64 | w | rd | x) & 1 != 0 && (u | 1u64 | w | rd | x) < 1024) by (bit_vector)
                requires
                    u == 0 || u == 16,
                    w == 0 || w == 4,
                    rd == 0 || rd == 2,
                    x == 0 || x == 8,
            ;
        }
        let mut q = s;
        let mut failure: Option<SysErrorKind> = None;
        let mut brk = s;
        while q < e && failure.is_none()
            invariant
                self.wf(),
                frames.wf(),
                self.apart(*frames),
                s <= q <= e,
                e <= VA_PAGES,
                s == start_va / 4096,
                e == (start_va + size) / 4096,
                bits == vmap_bits(perm),
                bits < 1024,
                bits & 1 != 0,
                free0 == old(frames).frames(),
                m0 == old(self)@,
                frames.frames().len() <= free0.len(),
                frames.frames() == free0.subrange(0, frames.frames().len() as int),
                t0 == old(self).tables@,
                failure is None ==> frames.frames().len() == free0.len() - (q - s) - tables_needed(t0, s as int, q as int),
                failure is None ==> forall|x: int|
                    q <= x < VA_PAGES && (q == s || idx2(x) != idx2(q - 1)) ==> #[trigger] self.tables@[0].entries@[idx2(x)]
                        == t0[0].entries@[idx2(x)],
                failure is None ==> forall|x: int|
                    q <= x < VA_PAGES && (q == s || x / 512 != (q - 1) / 512) ==> (#[trigger] leaf_table(self.tables@, x) is Some)
                        == (leaf_table(t0, x) is Some),
                failure is None && q > s ==> leaf_table(self.tables@, q - 1) is Some,
                failure matches Some(k) ==> q < e && ((k == SysErrorKind::InvalidArgument && m0.dom().contains(q as int))
                    || (k == SysErrorKind::OutOfMemory && free0.len() < (e - s) + tables_needed(t0, s as int, e as int))),
                s <= brk <= q,
                brk == s || brk == q,
                failure is None ==> brk == s,
                failure == Some(SysErrorKind::InvalidArgument) ==> brk == q,
                forall|x: int| s <= x < q ==> !#[trigger] m0.dom().contains(x),
                fresh_run(mapping(self.tables@), s as int, q as int, bits, free0, frames.frames().len() as int),
                mapping(self.tables@).remove_keys(page_range(s as int, q as int)) == m0.remove_keys(
                    page_range(s as int, q as int),
                ),
            decreases e - q + (if failure is None { 1int } else { 0int }),
        {
            let ghost tq = self.tables@;
            let ghost fq = frames.frames();
            proof {
                lemma_index_bounds(q as int);
                lemma_region(q as int, q as int);
                if q > s {
                    lemma_region(q as int, (q - 1) as int);
                    assert(leaf_table(tq, q - 1) is Some);
                    assert(pte_valid(tq[0].entries@[idx2(q - 1)]));
                }
                assert(walk_need(tq, q as int) == (if needs_mid(t0, s as int, q as int) {
                    1int
                } else {
                    0int
                }) + (if needs_last(t0, s as int, q as int) {
                    1int
                } else {
                    0int
                })) by {
                    if q == s || q % 0x40000 == 0 {
                        assert(tq[0].entries@[idx2(q as int)] == t0[0].entries@[idx2(q as int)]);
                    }
                    if q == s || q % 512 == 0 {
                        assert((leaf_table(tq, q as int) is Some) == (leaf_table(t0, q as int) is Some));
                    } else {
                        assert(leaf_table(tq, q as int) == leaf_table(tq, q - 1));
                    }
                }
                assert(tables_needed(t0, s as int, q + 1) == tables_needed(t0, s as int, q as int) + walk_need(
                    tq,
                    q as int,
                ));
                lemma_needed_mono(t0, s as int, q + 1, e as int);
            }
            match self.walk_alloc(q, frames) {
                Err(missing) => {
                    failure = Some(SysErrorKind::OutOfMemory);
                    proof {
                        assert(free0.len() < (e - s) + tables_needed(t0, s as int, e as int));
                    }
                    brk = match missing {
                        MissingTable::Middle => s,
                        MissingTable::Last => if q / 0x40000 == s / 0x40000 {
                            s
                        } else {
                            q
                        },
                    };
                    proof {
                        assert(mapping(self.tables@) == mapping(tq));
                        lemma_fresh_shrink(mapping(tq), s as int, q as int, bits, free0, fq.len() as int, frames.frames().len() as int);
                        assert forall|i: int| 0 <= i < frames.frames().len() implies frames.frames()[i] == free0[i] by {
                            assert(frames.frames()[i] == fq[i]);
                        }
                        assert(frames.frames() =~= free0.subrange(0, frames.frames().len() as int));
                    }
                },
                Ok(l) => {
                    let ghost tw = self.tables@;
                    let ghost fw = frames.frames();
                    proof {
                        assert forall|i: int| 0 <= i < fw.len() implies fw[i] == free0[i] by {
                            assert(fw[i] == fq[i]);
                        }
                        assert(fw =~= free0.subrange(0, fw.len() as int));
                        assert(table_ok(tw[l as int]));
                        lemma_fresh_shrink(mapping(tq), s as int, q as int, bits, free0, fq.len() as int, fw.len() as int);
                    }
                    let j = (q % 512) as usize;
                    let ent = self.tables[l].entries[j];
                    if ent & 1 != 0 {
                        proof {
                            assert(leaf_entry(tw, q as int) == Some(ent));
                            assert(mapping(tw).dom().contains(q as int));
                            assert(!page_range(s as int, q as int).contains(q as int));
                            assert(mapping(tw).remove_keys(page_range(s as int, q as int)).dom().contains(q as int));
                            assert(m0.dom().contains(q as int));
                        }
                        failure = Some(SysErrorKind::InvalidArgument);
                        brk = q;
                        proof {
                            assert(self.tables@ == tw);
                            assert(frames.frames() == fw);
                        }
                    } else {
                        match frames.take() {
                            None => {
                                failure = Some(SysErrorKind::OutOfMemory);
                                brk = q;
                                proof {
                                    assert(free0.len() < (e - s) + tables_needed(t0, s as int, e as int));
                            assert(self.tables@ == tw);
                            assert(frames.frames() == fw);
                        }
                            },
                            Some(f) => {
                                proof {
                                    assert(frame_ok(fw[fw.len() - 1]));
                                    assert(!frame_used(tw, f));
                                    lemma_make_entry(f, bits);
                                }
                                let ne = ((f / 4096) << 10) | bits;
                                self.set_entry(l, j, ne);
                                proof {
                                    let t = self.tables@;
                                    assert(ne == make_entry(f, bits));
                                    lemma_set_leaf(tw, t, q as int, l as int, ne);
                                    assert(mapping(t) == mapping(tw).insert(q as int, ne));
                                    assert forall|x: int| 0 <= x < frames.frames().len() implies !frame_used(
                                        t,
                                        #[trigger] frames.frames()[x],
                                    ) by {
                                        assert(frames.frames()[x] == fw[x]);
                                        assert(fw[x] != fw[fw.len() - 1]);
                                        assert(!frame_used(tw, fw[x]));
                                    }
                                    assert(frames.frames() =~= free0.subrange(0, frames.frames().len() as int));
                                    assert(!m0.dom().contains(q as int)) by {
                                        assert(!mapping(tw).dom().contains(q as int));
                                        assert(!page_range(s as int, q as int).contains(q as int));
                                        assert(!mapping(tw).remove_keys(page_range(s as int, q as int)).dom().contains(
                                            q as int,
                                        ));
                                    }
                                    assert(free0[fw.len() - 1] == f);
                                    assert(pte_addr(ne) == f);
                                    lemma_fresh_grow(mapping(tw), s as int, q as int, bits, free0, fw.len() as int, ne);
                                    let rr = page_range(s as int, q as int);
                                    let r1 = page_range(s as int, q + 1);
                                    assert forall|x: int| #![auto] !r1.contains(x) implies (mapping(t).dom().contains(x)
                                        == m0.dom().contains(x)) && (m0.dom().contains(x) ==> mapping(t)[x] == m0[x]) by {
                                        assert(!rr.contains(x));
                                        assert(mapping(tw) == mapping(tq));
                                        assert(mapping(tq).remove_keys(rr).dom().contains(x) == mapping(tq).dom().contains(x));
                                        assert(m0.remove_keys(rr).dom().contains(x) == m0.dom().contains(x));
                                        if m0.dom().contains(x) {
                                            assert(mapping(tq).remove_keys(rr)[x] == mapping(tq)[x]);
                                            assert(m0.remove_keys(rr)[x] == m0[x]);
                                        }
                                    }
                                    assert(mapping(t).remove_keys(r1) =~= m0.remove_keys(r1));
                                }
                                proof {
                                    let t = self.tables@;
                                    assert forall|x: int|
                                        q + 1 <= x < VA_PAGES && idx2(x) != idx2(q as int) implies #[trigger] t[0].entries@[idx2(
                                        x,
                                    )] == t0[0].entries@[idx2(x)] by {
                                        lemma_region(x, q as int);
                                        if q > s {
                                            lemma_region(q as int, (q - 1) as int);
                                        }
                                        lemma_index_bounds(x);
                                        lemma_walk_set(tw, t, l as int, j as int, ne, x);
                                        assert(tw[0].entries@[idx2(x)] == tq[0].entries@[idx2(x)]);
                                        assert(tq[0].entries@[idx2(x)] == t0[0].entries@[idx2(x)]);
                                    }
                                    assert forall|x: int|
                                        q + 1 <= x < VA_PAGES && x / 512 != q / 512 implies (#[trigger] leaf_table(t, x) is Some)
                                        == (leaf_table(t0, x) is Some) by {
                                        lemma_region(x, q as int);
                                        if q > s {
                                            lemma_region(q as int, (q - 1) as int);
                                        }
                                        lemma_walk_set(tw, t, l as int, j as int, ne, x);
                                        assert((leaf_table(tw, x) is Some) == (leaf_table(tq, x) is Some));
                                        assert((leaf_table(tq, x) is Some) == (leaf_table(t0, x) is Some));
                                    }
                                    lemma_walk_set(tw, t, l as int, j as int, ne, q as int);
                                }
                                q = q + 1;
                            },
                        }
                    }
                },
            }
        }
        match failure {
            None => {
                proof {
                    assert(q == e);
                }
                Ok(())
            },
            Some(kind) => {
                let ghost tb = self.tables@;
                let ghost tb_len = frames.frames().len() as int;
                proof {
                    assert forall|x: int| s <= x < q implies #[trigger] frame_of_ok(mapping(tb), x) by {
                        assert(mapping(tb).dom().contains(x));
                        let i = choose|i: int| frames.frames().len() <= i < free0.len() && free0[i] as int == pte_addr(mapping(tb)[x]);
                        assert(frame_ok(old(frames).frames()[i]));
                    }
                    assert((start_va + (brk - s) * 4096) / 4096 == brk) by (nonlinear_arith)
                        requires
                            s == start_va / 4096,
                            start_va % 4096 == 0,
                            s <= brk,
                    ;
                    assert(start_va as int / 4096 == s);
                }
                self.vunmap(start_va, (brk - s) * 4096, frames);
                proof {
                    lemma_rollback(m0, mapping(tb), mapping(self.tables@), s as int, brk as int, q as int, bits, free0, tb_len);
                    if kind == SysErrorKind::InvalidArgument {
                        assert(page_range(brk as int, q as int) =~= Set::<int>::empty());
                        assert(mapping(self.tables@) =~= mapping(self.tables@).remove_keys(page_range(brk as int, q as int)));
                    }
                }
                Err(SysError { msg: None, kind })
            },
        }
    }
}

impl PageTables {
    /// The leaf entry that maps the page of `va`, if it is mapped.
    pub fn get_entry(&self, va: u64) -> (r: Option<u64>)
        requires
            self.wf(),
            va < VA_PAGES * 4096,
        ensures
            r == (if self@.dom().contains(va as int / 4096) {
                Some(self@[va as int / 4096])
            } else {
                None
            }),
    {
        let p = va / 4096;
        match self.leaf_of(p) {
            Some(l) => {
                proof {
                    lemma_index_bounds(p as int);
                    assert(table_ok(self.tables@[l as int]));
                }
                let ent = self.tables[l].entries[(p % 512) as usize];
                if ent & 1 != 0 {
                    Some(ent)
                } else {
                    None
                }
            },
            None => None,
        }
    }
}
impl PageTables {
    /// Whether frame `f` backs a table or a mapped page.
    pub closed spec fn uses_frame(&self, f: u64) -> bool {
        frame_used(self.tables@, f)
    }

    /// Unmaps the page of `va` and gives the frame it mapped; a page that
    /// is not mapped is `None`. The frame is not given back to a pool.
    pub fn unmap(&mut self, va: u64) -> (r: Option<u64>)
        requires
            old(self).wf(),
            va < VA_PAGES * 4096,
        ensures
            final(self).wf(),
            forall|pool: FramePool| #[trigger] old(self).apart(pool) ==> final(self).apart(pool),
            ({
                let p = va as int / 4096;
                &&& old(self)@.dom().contains(p) ==> r == Some((old(self)@[p] >> 10u64) << 12u64)
                &&& !old(self)@.dom().contains(p) ==> r is None
                &&& final(self)@ == old(self)@.remove(p)
            }),
    {
        let p = va / 4096;
        match self.leaf_of(p) {
            Some(l) => {
                proof {
                    lemma_index_bounds(p as int);
                    assert(table_ok(self.tables@[l as int]));
                }
                let j = (p % 512) as usize;
                let ent = self.tables[l].entries[j];
                if ent & 1 == 0 {
                    proof {
                        assert(self@ =~= self@.remove(p as int));
                    }
                    return None;
                }
                let ghost t0 = self.tables@;
                self.set_entry(l, j, 0);
                proof {
                    assert(!pte_valid(0u64)) by (bit_vector);
                    lemma_set_leaf(t0, self.tables@, p as int, l as int, 0);
                    assert(leaf_entry(t0, p as int) == Some(ent));
                    assert forall|pool: FramePool| #[trigger] old(self).apart(pool) implies self.apart(pool) by {
                        assert forall|i: int| 0 <= i < pool.frames().len() implies !frame_used(
                            self.tables@,
                            #[trigger] pool.frames()[i],
                        ) by {
                            assert(!frame_used(t0, pool.frames()[i]));
                        }
                    }
                }
                Some((ent >> 10) << 12)
            },
            None => {
                proof {
                    assert(self@ =~= self@.remove(p as int));
                }
                None
            },
        }
    }

    /// Maps the page of `va` anew only where it is not mapped yet, and so
    /// does nothing: a mapped page is `Ok(None)`, and for a page that is
    /// not mapped the walk finds no entry and the call is `OutOfMemory`.
    pub fn try_map(&mut self, va: u64, pa: u64, perm: EntryPerm) -> (r: Result<Option<u64>, SysError>)
        requires
            old(self).wf(),
            va < VA_PAGES * 4096,
        ensures
            *final(self) == *old(self),
            old(self)@.dom().contains(va as int / 4096) ==> r matches Ok(None),
            !old(self)@.dom().contains(va as int / 4096) ==> (r matches Err(e) && e.kind
                == SysErrorKind::OutOfMemory),
    {
        match self.get_entry(va) {
            Some(_) => Ok(None),
            None => Err(SysError { msg: None, kind: SysErrorKind::OutOfMemory }),
        }
    }

    /// Points the mapped page of `va` at frame `pa` with `perm` made valid,
    /// and gives the new entry; a page that is not mapped is `OutOfMemory`
    /// (the walk makes no table). `pa` backs nothing else.
    pub fn map(&mut self, va: u64, pa: u64, perm: EntryPerm) -> (r: Result<u64, SysError>)
        requires
            old(self).wf(),
            va < VA_PAGES * 4096,
            frame_ok(pa),
            old(self).uses_frame(pa) ==> old(self)@.dom().contains(va as int / 4096) && pte_addr(
                old(self)@[va as int / 4096],
            ) == pa,
        ensures
            final(self).wf(),
            ({
                let p = va as int / 4096;
                &&& old(self)@.dom().contains(p) ==> r == Ok::<u64, SysError>(make_entry(pa, vmap_bits(perm)))
                    && final(self)@ == old(self)@.insert(p, make_entry(pa, vmap_bits(perm)))
                &&& !old(self)@.dom().contains(p) ==> (r matches Err(e) && e.kind == SysErrorKind::OutOfMemory)
                    && final(self)@ == old(self)@
            }),
            forall|pool: FramePool|
                #[trigger] old(self).apart(pool) && (forall|i: int|
                    0 <= i < pool.frames().len() ==> pool.frames()[i] != pa) ==> final(self).apart(pool),
    {
        let p = va / 4096;
        let bits = ArchEntryPerm::from_perm(
            EntryPerm {
                valid: true,
                readable: perm.readable,
                writable: perm.writable,
                executable: perm.executable,
                user: perm.user,
            },
        ).0;
        proof {
            assert(EntryPerm { valid: true, ..perm } == EntryPerm {
                valid: true,
                readable: perm.readable,
                writable: perm.writable,
                executable: perm.executable,
                user: perm.user,
            });
            let u: u64 = if perm.user { 16 } else { 0 };
            let w: u64 = if perm.writable { 4 } else { 0 };
            let rd: u64 = if perm.readable { 2 } else { 0 };
            let x: u64 = if perm.executable { 8 } else { 0 };
            assert(bits == u | 1u64 | w | rd | x);
            assert((u | 1u64 | w | rd | x) & 1 != 0 && (u | 1u64 | w | rd | x) < 1024) by (bit_vector)
                requires
                    u == 0 || u == 16,
                    w == 0 || w == 4,
                    rd == 0 || rd == 2,
                    x == 0 || x == 8,
            ;
        }
        match self.leaf_of(p) {
            Some(l) => {
                proof {
                    lemma_index_bounds(p as int);
                    assert(table_ok(self.tables@[l as int]));
                }
                let j = (p % 512) as usize;
                let ent = self.tables[l].entries[j];
                if ent & 1 == 0 {
                    return Err(SysError { msg: None, kind: SysErrorKind::OutOfMemory });
                }
                let ghost t0 = self.tables@;
                proof {
                    lemma_make_entry(pa, bits);
                    assert(leaf_entry(t0, p as int) == Some(ent));
                }
                let ne = ((pa / 4096) << 10) | bits;
                self.set_entry(l, j, ne);
                proof {
                    assert(ne == make_entry(pa, bits));
                    lemma_map_leaf(t0, self.tables@, p as int, l as int, ne, ent);
                    assert forall|pool: FramePool|
                        #[trigger] old(self).apart(pool) && (forall|i: int|
                            0 <= i < pool.frames().len() ==> pool.frames()[i] != pa) implies self.apart(pool) by {
                        assert forall|i: int| 0 <= i < pool.frames().len() implies !frame_used(
                            self.tables@,
                            #[trigger] pool.frames()[i],
                        ) by {
                            assert(!frame_used(t0, pool.frames()[i]));
                        }
                    }
                }
                Ok(ne)
            },
            None => Err(SysError { msg: None, kind: SysErrorKind::OutOfMemory }),
        }
    }

    /// The mapped pages from `start_va` up to `end_va`, in order, each with
    /// its virtual address and its leaf entry.
    pub fn range_of_entries(&self, start_va: u64, end_va: u64) -> (r: Vec<(u64, u64)>)
        requires
            self.wf(),
            start_va % 4096 == 0,
            end_va % 4096 == 0,
            start_va <= end_va <= VA_PAGES * 4096,
        ensures
            r@ == mapped_in(self@, start_va as int / 4096, end_va as int / 4096),
    {
        let s = start_va / 4096;
        let e = end_va / 4096;
        let mut out: Vec<(u64, u64)> = Vec::new();
        let mut q = s;
        while q < e
            invariant
                self.wf(),
                s <= q <= e,
                e <= VA_PAGES,
                out@ == mapped_in(self@, s as int, q as int),
            decreases e - q,
        {
            match self.get_entry(q * 4096) {
                Some(ent) => {
                    proof {
                        assert((q * 4096) as int / 4096 == q);
                    }
                    out.push((q * 4096, ent));
                },
                None => {
                    proof {
                        assert((q * 4096) as int / 4096 == q);
                    }
                },
            }
            q = q + 1;
        }
        out
    }
}

/// The mapped pages of `m` from page `s` up to page `e`, in order, each as
/// its virtual address and its entry.
pub open spec fn mapped_in(m: Map<int, u64>, s: int, e: int) -> Seq<(u64, u64)>
    decreases e - s,
{
    if e <= s {
        Seq::empty()
    } else if m.dom().contains(e - 1) {
        mapped_in(m, s, e - 1).push((((e - 1) * 4096) as u64, m[e - 1]))
    } else {
        mapped_in(m, s, e - 1)
    }
}

/// Re-pointing a mapped page at a frame that backs nothing else keeps the
/// tree, its frames apart, and changes the mapping at that page alone.
proof fn lemma_map_leaf(old: Seq<PageTable>, new: Seq<PageTable>, p: int, l: int, e: u64, e0: u64)
    requires
        tree_ok(old),
        leaves_apart(old),
        0 <= p < VA_PAGES,
        leaf_table(old, p) == Some(l),
        leaf_entry(old, p) == Some(e0),
        pte_valid(e0),
        set_at(old, new, l, idx0(p), e),
        pte_valid(e),
        0 <= pte_addr(e) <= u64::MAX,
        frame_used(old, pte_addr(e) as u64) ==> pte_addr(e0) == pte_addr(e),
    ensures
        tree_ok(new),
        leaves_apart(new),
        mapping(new) == mapping(old).insert(p, e),
        forall|x: u64| #[trigger] frame_used(new, x) ==> frame_used(old, x) || x == pte_addr(e),
{
    lemma_set_leaf(old, new, p, l, e);
    if frame_used(old, pte_addr(e) as u64) {
        // the page keeps its own frame, so each frame still backs one
        // thing only
        let j = idx0(p);
        lemma_index_bounds(p);
        assert(table_ok(old[0]));
        assert(is_pde(old, 0, idx2(p)));
        assert(pde_ok(old, 0, idx2(p)));
        let m = pde_target(old, 0, idx2(p));
        lemma_table_at(old, m);
        assert(table_ok(old[m]));
        assert(is_pde(old, m, idx1(p)));
        assert(pde_ok(old, m, idx1(p)));
        lemma_table_at(old, l);
        assert(old[l].level == 0);
        assert(old[l].entries@[j] == e0);
        assert forall|k: int, i: int| 0 <= k < new.len() && 0 <= i < 512 && new[k].level == 0 && pte_valid(
            new[k].entries@[i],
        ) implies #[trigger] pte_addr(new[k].entries@[i]) == pte_addr(old[k].entries@[i]) && pte_valid(
            old[k].entries@[i],
        ) by {
            assert(table_ok(old[k]));
            if k != l {
                assert(new[k] == old[k]);
            } else if i != j {
                assert(new[k].entries@[i] == old[k].entries@[i]);
            }
        }
        assert forall|k: int| 0 <= k < new.len() implies #[trigger] new[k].addr == old[k].addr && new[k].level
            == old[k].level by {
            if k != l {
                assert(new[k] == old[k]);
            }
        }
        assert forall|k1: int, i1: int, k2: int, i2: int|
            0 <= k1 < new.len() && 0 <= k2 < new.len() && 0 <= i1 < 512 && 0 <= i2 < 512 && (k1, i1) != (k2, i2)
                && new[k1].level == 0 && new[k2].level == 0 && pte_valid(new[k1].entries@[i1]) && pte_valid(
                new[k2].entries@[i2],
            ) implies #[trigger] pte_addr(new[k1].entries@[i1]) != #[trigger] pte_addr(new[k2].entries@[i2]) by {
            assert(pte_addr(new[k1].entries@[i1]) == pte_addr(old[k1].entries@[i1]));
            assert(pte_addr(new[k2].entries@[i2]) == pte_addr(old[k2].entries@[i2]));
        }
        assert forall|k1: int, i1: int, k2: int|
            0 <= k1 < new.len() && 0 <= k2 < new.len() && 0 <= i1 < 512 && new[k1].level == 0 && pte_valid(
                new[k1].entries@[i1],
            ) implies #[trigger] pte_addr(new[k1].entries@[i1]) != #[trigger] new[k2].addr by {
            assert(pte_addr(new[k1].entries@[i1]) == pte_addr(old[k1].entries@[i1]));
            assert(new[k2].addr == old[k2].addr);
        }
    }
}
} // verus!
