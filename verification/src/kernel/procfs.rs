//! The listing of the proc file system's root directory: `.`, `..`, one
//! directory per task (named by its id) and the fixed files.

use vstd::prelude::*;
use crate::fcntl::{Dirent, FileType};
use vstd::string::StringSliceAdditionalSpecFns;
use crate::text::{decimal, push_decimal, lemma_decimal_ascii, ascii_chars, ascii_to_string};

verus! {

/// A fixed file of the root directory: its name, type and inode number.
pub struct ProcChild {
    pub name: Vec<u8>,
    pub typ: FileType,
    pub ino: u64,
}

/// What entry `k` of the listing names: its name, type and inode number.
/// The listing is `.` and `..` (inode 1), then the tasks (a directory of
/// inode `100 + 10 * id` named by the decimal id), then the children.
pub open spec fn root_entry(tasks: Seq<u64>, children: Seq<ProcChild>, k: int) -> (Seq<u8>, FileType, u64) {
    if k == 0 {
        (seq![46u8], FileType::Directory, 1u64)
    } else if k == 1 {
        (seq![46u8, 46u8], FileType::Directory, 1u64)
    } else if k < 2 + tasks.len() {
        (decimal(tasks[k - 2] as nat), FileType::Directory, (100 + 10 * tasks[k - 2]) as u64)
    } else {
        let c = children[k - 2 - tasks.len()];
        (c.name@, c.typ, c.ino)
    }
}

/// `d` is the directory entry of `name`, `typ` and `ino`: the name fills
/// the front of the name array, the rest is zero.
pub open spec fn dirent_is(d: Dirent, e: (Seq<u8>, FileType, u64)) -> bool {
    &&& d.name_len == e.0.len()
    &&& d.typ == e.1
    &&& d.inode_no == e.2
    &&& forall|i: int| 0 <= i < e.0.len() ==> #[trigger] d.name@[i] == e.0[i]
    &&& forall|i: int| e.0.len() <= i < 256 ==> #[trigger] d.name@[i] == 0
}

/// The number of entries a listing of `total` entries gives from `offset`
/// into at most `n` places.
pub open spec fn listed(total: int, offset: int, n: int) -> int {
    if offset >= total {
        0
    } else if total - offset < n {
        total - offset
    } else {
        n
    }
}

/// The directory entry of `name`, `typ` and `ino`.
pub fn make_dirent(name: &[u8], typ: FileType, ino: u64) -> (r: Dirent)
    requires
        name@.len() <= 256,
    ensures
        dirent_is(r, (name@, typ, ino)),
{
    let mut arr = [0u8; 256];
    let mut i: usize = 0;
    while i < name.len()
        invariant
            i <= name@.len() <= 256,
            forall|k: int| 0 <= k < i ==> #[trigger] arr@[k] == name@[k],
            forall|k: int| i <= k < 256 ==> #[trigger] arr@[k] == 0,
        decreases name@.len() - i,
    {
        arr[i] = name[i];
        i += 1;
    }
    Dirent { name: arr, name_len: name.len(), inode_no: ino, typ }
}

/// The number of decimal digits of `n` grows with each factor of ten.
proof fn lemma_digits(n: nat)
    ensures
        n < 10 ==> decimal(n).len() == 1,
        forall|p: nat| n < #[trigger] pow10(p) && p >= 1 ==> decimal(n).len() <= p,
    decreases n,
{
    if n >= 10 {
        lemma_digits(n / 10);
        assert forall|p: nat| n < #[trigger] pow10(p) && p >= 1 implies decimal(n).len() <= p by {
            if p == 1 {
                assert(pow10(1) == 10) by {
                    reveal_with_fuel(pow10, 2);
                }
            } else {
                let p1 = (p - 1) as nat;
                assert(pow10(p) == 10 * pow10(p1));
                assert(n / 10 < pow10(p1));
                assert(decimal(n / 10).len() <= p1);
            }
        }
    }
}

/// Ten to the power `p`.
pub open spec fn pow10(p: nat) -> nat
    decreases p,
{
    if p == 0 {
        1
    } else {
        10 * pow10((p - 1) as nat)
    }
}

/// Lists the root directory from entry `offset` on into at most `n`
/// entries, and gives how far the listing moved on.
pub fn proc_root_dirents(offset: u64, tasks: &[u64], children: &[ProcChild], n: usize) -> (r: (Vec<Dirent>, u64))
    requires
        forall|i: int| 0 <= i < tasks@.len() ==> #[trigger] tasks@[i] <= (u64::MAX - 100) / 10,
        forall|i: int| 0 <= i < children@.len() ==> (#[trigger] children@[i]).name@.len() <= 256,
        2 + tasks@.len() + children@.len() <= u64::MAX,
    ensures
        r.0@.len() == listed(2 + tasks@.len() as int + children@.len() as int, offset as int, n as int),
        r.1 == r.0@.len(),
        forall|k: int| 0 <= k < r.0@.len() ==> dirent_is(#[trigger] r.0@[k], root_entry(tasks@, children@, offset + k)),
{
    let total: u64 = 2 + tasks.len() as u64 + children.len() as u64;
    let mut out: Vec<Dirent> = Vec::new();
    let mut cur: u64 = offset;
    while out.len() < n && cur < total
        invariant
            total == 2 + tasks@.len() + children@.len(),
            offset <= cur,
            cur - offset == out@.len(),
            out@.len() <= n,
            offset < total ==> cur <= total,
            offset >= total ==> cur == offset,
            forall|i: int| 0 <= i < tasks@.len() ==> #[trigger] tasks@[i] <= (u64::MAX - 100) / 10,
            forall|i: int| 0 <= i < children@.len() ==> (#[trigger] children@[i]).name@.len() <= 256,
            forall|k: int| 0 <= k < out@.len() ==> dirent_is(#[trigger] out@[k], root_entry(tasks@, children@, offset + k)),
        decreases total - cur,
    {
        let d = if cur == 0 {
            let dot: Vec<u8> = vec![46u8];
            proof {
                assert(dot@ =~= seq![46u8]);
            }
            make_dirent(dot.as_slice(), FileType::Directory, 1)
        } else if cur == 1 {
            let dotdot: Vec<u8> = vec![46u8, 46u8];
            proof {
                assert(dotdot@ =~= seq![46u8, 46u8]);
            }
            make_dirent(dotdot.as_slice(), FileType::Directory, 1)
        } else if cur - 2 < tasks.len() as u64 {
            let tid = tasks[(cur - 2) as usize];
            let mut name: Vec<u8> = Vec::new();
            push_decimal(&mut name, tid);
            proof {
                assert(name@ =~= decimal(tid as nat));
                lemma_digits(tid as nat);
                assert(pow10(20) == 100_000_000_000_000_000_000) by {
                    reveal_with_fuel(pow10, 21);
                }
                assert(tid < pow10(20));
            }
            make_dirent(name.as_slice(), FileType::Directory, 100 + 10 * tid)
        } else {
            let c = &children[(cur - 2 - tasks.len() as u64) as usize];
            make_dirent(c.name.as_slice(), c.typ, c.ino)
        };
        proof {
            assert(offset + out@.len() == cur);
        }
        out.push(d);
        cur = cur + 1;
    }
    let moved = cur - offset;
    (out, moved)
}


/// One slab cache as `/proc/slabinfo` shows it; its name is ASCII.
pub struct SlabInfoRow {
    pub name: Vec<u8>,
    pub active_objs: u64,
    pub num_objs: u64,
    pub object_size: u64,
    pub objs_per_slab: u64,
    pub pages_per_slab: u64,
    pub num_slabs: u64,
    pub batchcount: u64,
}

/// `n` spaces.
pub open spec fn spaces(n: int) -> Seq<u8> {
    Seq::new(n as nat, |i: int| 32u8)
}

/// `s` padded with spaces after it to `w` bytes.
pub open spec fn pad_right(s: Seq<u8>, w: int) -> Seq<u8> {
    if s.len() >= w {
        s
    } else {
        s + spaces(w - s.len())
    }
}

/// `s` padded with spaces before it to `w` bytes.
pub open spec fn pad_left(s: Seq<u8>, w: int) -> Seq<u8> {
    if s.len() >= w {
        s
    } else {
        spaces(w - s.len()) + s
    }
}

/// The width of the name column: the longest name, and at least 4.
pub open spec fn name_width(rows: Seq<SlabInfoRow>) -> int
    decreases rows.len(),
{
    if rows.len() == 0 {
        0
    } else {
        let rest = name_width(rows.drop_last());
        let own = if rows.last().name@.len() > 4 {
            rows.last().name@.len() as int
        } else {
            4
        };
        if rest > own {
            rest
        } else {
            own
        }
    }
}

/// The titles after the name column, and the blank line under them.
pub open spec fn header_tail() -> Seq<u8> {
    "  active objs  num objs  obj size  objs per slab  pages per slab  num slabs  batchcount\n\n".spec_bytes()
}

/// Two spaces between columns.
pub open spec fn gap() -> Seq<u8> {
    seq![32u8, 32u8]
}

/// The line of one slab cache, the name column `w` wide.
pub open spec fn slab_line(r: SlabInfoRow, w: int) -> Seq<u8> {
    pad_right(r.name@, w) + gap() + pad_left(decimal(r.active_objs as nat), 11) + gap() + pad_left(
        decimal(r.num_objs as nat),
        8,
    ) + gap() + pad_left(decimal(r.object_size as nat), 8) + gap() + pad_left(decimal(r.objs_per_slab as nat), 13)
        + gap() + pad_left(decimal(r.pages_per_slab as nat), 14) + gap() + pad_left(decimal(r.num_slabs as nat), 9)
        + gap() + pad_left(decimal(r.batchcount as nat), 10) + seq![10u8]
}

/// The lines of `rows`, in order.
pub open spec fn slab_lines(rows: Seq<SlabInfoRow>, w: int) -> Seq<u8>
    decreases rows.len(),
{
    if rows.len() == 0 {
        Seq::empty()
    } else {
        slab_lines(rows.drop_last(), w) + slab_line(rows.last(), w)
    }
}

/// The text of `/proc/slabinfo`: a title line, a blank line and a line per
/// slab cache, in columns.
pub open spec fn slab_table(rows: Seq<SlabInfoRow>) -> Seq<u8> {
    let w = name_width(rows);
    pad_right(seq![110u8, 97u8, 109u8, 101u8], w) + header_tail() + slab_lines(rows, w)
}

/// All bytes of `s` are ASCII.
pub open spec fn all_ascii(s: Seq<u8>) -> bool {
    forall|i: int| 0 <= i < s.len() ==> #[trigger] s[i] < 128
}

/// Appends `s`.
fn push_all(out: &mut Vec<u8>, s: &[u8])
    ensures
        final(out)@ == old(out)@ + s@,
{
    let mut i: usize = 0;
    while i < s.len()
        invariant
            i <= s@.len(),
            out@ == old(out)@ + s@.subrange(0, i as int),
        decreases s@.len() - i,
    {
        out.push(s[i]);
        i += 1;
        proof {
            assert(out@ =~= old(out)@ + s@.subrange(0, i as int));
        }
    }
    proof {
        assert(s@.subrange(0, s@.len() as int) =~= s@);
    }
}

/// Appends `n` spaces.
fn push_spaces(out: &mut Vec<u8>, n: usize)
    ensures
        final(out)@ == old(out)@ + spaces(n as int),
{
    let mut i: usize = 0;
    while i < n
        invariant
            i <= n,
            out@ == old(out)@ + spaces(i as int),
        decreases n - i,
    {
        out.push(32u8);
        i += 1;
        proof {
            assert(out@ =~= old(out)@ + spaces(i as int));
        }
    }
}

/// Appends `s` padded after it to `w` bytes.
fn push_pad_right(out: &mut Vec<u8>, s: &[u8], w: usize)
    ensures
        final(out)@ == old(out)@ + pad_right(s@, w as int),
{
    push_all(out, s);
    if s.len() < w {
        push_spaces(out, w - s.len());
        proof {
            assert(old(out)@ + s@ + spaces(w - s@.len()) =~= old(out)@ + (s@ + spaces(w - s@.len())));
        }
    }
}

/// Appends the decimal digits of `n` padded before them to `w` bytes.
fn push_number(out: &mut Vec<u8>, n: u64, w: usize)
    ensures
        final(out)@ == old(out)@ + pad_left(decimal(n as nat), w as int),
{
    let mut digits: Vec<u8> = Vec::new();
    push_decimal(&mut digits, n);
    proof {
        assert(digits@ =~= decimal(n as nat));
    }
    if digits.len() < w {
        push_spaces(out, w - digits.len());
    }
    push_all(out, digits.as_slice());
    proof {
        if digits@.len() < w {
            assert(old(out)@ + spaces(w - digits@.len()) + digits@ =~= old(out)@ + (spaces(w - digits@.len())
                + digits@));
        }
    }
}

/// Appends two spaces.
fn push_gap(out: &mut Vec<u8>)
    ensures
        final(out)@ == old(out)@ + gap(),
{
    out.push(32u8);
    out.push(32u8);
    proof {
        assert(final(out)@ =~= old(out)@ + gap());
    }
}

/// Appends the line of slab cache `r`, the name column `w` wide.
#[verifier::rlimit(40)]
fn push_slab_line(out: &mut Vec<u8>, r: &SlabInfoRow, w: usize)
    ensures
        final(out)@ == old(out)@ + slab_line(*r, w as int),
{
    let ghost o = old(out)@;
    push_pad_right(out, r.name.as_slice(), w);
    let ghost s1 = pad_right(r.name@, w as int);
    push_gap(out);
    push_number(out, r.active_objs, 11);
    let ghost s2 = s1 + gap() + pad_left(decimal(r.active_objs as nat), 11);
    assert(out@ =~= o + s2);
    push_gap(out);
    push_number(out, r.num_objs, 8);
    let ghost s3 = s2 + gap() + pad_left(decimal(r.num_objs as nat), 8);
    assert(out@ =~= o + s3);
    push_gap(out);
    push_number(out, r.object_size, 8);
    let ghost s4 = s3 + gap() + pad_left(decimal(r.object_size as nat), 8);
    assert(out@ =~= o + s4);
    push_gap(out);
    push_number(out, r.objs_per_slab, 13);
    let ghost s5 = s4 + gap() + pad_left(decimal(r.objs_per_slab as nat), 13);
    assert(out@ =~= o + s5);
    push_gap(out);
    push_number(out, r.pages_per_slab, 14);
    let ghost s6 = s5 + gap() + pad_left(decimal(r.pages_per_slab as nat), 14);
    assert(out@ =~= o + s6);
    push_gap(out);
    push_number(out, r.num_slabs, 9);
    let ghost s7 = s6 + gap() + pad_left(decimal(r.num_slabs as nat), 9);
    assert(out@ =~= o + s7);
    push_gap(out);
    push_number(out, r.batchcount, 10);
    let ghost s8 = s7 + gap() + pad_left(decimal(r.batchcount as nat), 10);
    assert(out@ =~= o + s8);
    out.push(10u8);
    assert(out@ =~= o + (s8 + seq![10u8]));
}

/// The text of `/proc/slabinfo` for `rows`, the slab caches in the order
/// given; there is at least one, and at most 32 (the rows are gathered in
/// a vector of that capacity).
pub fn slab_info_text(rows: &[SlabInfoRow]) -> (r: String)
    requires
        1 <= rows@.len() <= 32,
        forall|i: int| 0 <= i < rows@.len() ==> all_ascii(#[trigger] rows@[i].name@),
    ensures
        r@ == ascii_chars(slab_table(rows@)),
{
    let mut w: usize = 0;
    let mut i: usize = 0;
    while i < rows.len()
        invariant
            i <= rows@.len(),
            w == name_width(rows@.subrange(0, i as int)),
        decreases rows@.len() - i,
    {
        let own = if rows[i].name.len() > 4 {
            rows[i].name.len()
        } else {
            4
        };
        proof {
            assert(rows@.subrange(0, i + 1).drop_last() =~= rows@.subrange(0, i as int));
        }
        if own > w {
            w = own;
        }
        i += 1;
    }
    proof {
        assert(rows@.subrange(0, rows@.len() as int) =~= rows@);
    }
    let mut out: Vec<u8> = Vec::new();
    let title: Vec<u8> = vec![110u8, 97u8, 109u8, 101u8];
    push_pad_right(&mut out, title.as_slice(), w);
    let tail = "  active objs  num objs  obj size  objs per slab  pages per slab  num slabs  batchcount\n\n".as_bytes();
    push_all(&mut out, tail);
    let mut k: usize = 0;
    while k < rows.len()
        invariant
            k <= rows@.len(),
            w == name_width(rows@),
            title@ == seq![110u8, 97u8, 109u8, 101u8],
            out@ == pad_right(title@, w as int) + header_tail() + slab_lines(rows@.subrange(0, k as int), w as int),
        decreases rows@.len() - k,
    {
        let ghost before = out@;
        push_slab_line(&mut out, &rows[k], w);
        proof {
            assert(rows@.subrange(0, k + 1).drop_last() =~= rows@.subrange(0, k as int));
            assert(rows@.subrange(0, k + 1).last() == rows@[k as int]);
        }
        k += 1;
    }
    proof {
        assert(rows@.subrange(0, rows@.len() as int) =~= rows@);
        assert(out@ == slab_table(rows@));
        lemma_table_ascii(rows@);
    }
    ascii_to_string(out)
}

/// The text of `/proc/slabinfo` is ASCII when the names are.
proof fn lemma_table_ascii(rows: Seq<SlabInfoRow>)
    requires
        forall|i: int| 0 <= i < rows.len() ==> all_ascii(#[trigger] rows[i].name@),
    ensures
        all_ascii(slab_table(rows)),
{
    reveal_strlit("  active objs  num objs  obj size  objs per slab  pages per slab  num slabs  batchcount\n\n");
    vstd::string::is_ascii_spec_bytes("  active objs  num objs  obj size  objs per slab  pages per slab  num slabs  batchcount\n\n");
    let w = name_width(rows);
    assert(all_ascii(header_tail()));
    assert(all_ascii(pad_right(seq![110u8, 97u8, 109u8, 101u8], w)));
    lemma_lines_ascii(rows, w);
}

/// The lines of ASCII-named slab caches are ASCII.
proof fn lemma_lines_ascii(rows: Seq<SlabInfoRow>, w: int)
    requires
        forall|i: int| 0 <= i < rows.len() ==> all_ascii(#[trigger] rows[i].name@),
    ensures
        all_ascii(slab_lines(rows, w)),
    decreases rows.len(),
{
    if rows.len() > 0 {
        lemma_lines_ascii(rows.drop_last(), w);
        let r = rows.last();
        assert(all_ascii(r.name@));
        lemma_decimal_ascii(r.active_objs as nat);
        lemma_decimal_ascii(r.num_objs as nat);
        lemma_decimal_ascii(r.object_size as nat);
        lemma_decimal_ascii(r.objs_per_slab as nat);
        lemma_decimal_ascii(r.pages_per_slab as nat);
        lemma_decimal_ascii(r.num_slabs as nat);
        lemma_decimal_ascii(r.batchcount as nat);
        assert(all_ascii(slab_line(r, w)));
    }
}
} // verus!
