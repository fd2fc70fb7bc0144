//! Directories: their content is a sequence of 80-byte entries; free
//! entries name inode 0.

use vstd::prelude::*;
use vstd::string::StringSliceAdditionalSpecFns;
use crate::errors::{FsError, FsErrorKind, opt_str_view};
use crate::name::{ValidLookupName, ValidFileName};
use crate::fcntl::{self, Dirent};
use crate::efs::consts::{MAX_FILE_SIZE, RAW_DIRENT_SIZE, FILE_NAME_LEN};
use crate::efs::dev::BlockDevice;
use crate::efs::buffer::BlockBufferAllocator;
use crate::efs::cache::extends;
use crate::efs::fs::EfsFileSystem;
use crate::efs::inode::{RawINode, FileType, spec_file_type};
use crate::efs::file::{fs_same_layout, same_meta, read_len, write_len, file_byte, byte_known, file_blk, second_table, walk_known, lemma_ready_at, bytes_ready, blocks_in_place, lemma_ready_extends};
use crate::efs::dirent::{RawDirent, DIRENT_BYTES, dirent_bytes, dirent_name, short_dirent_msg};
use crate::efs::node::{
    INode, stored_inode, lemma_stored_extends, lemma_inode_in, write_fits, others_kept, records_apart, only_record,
    inode_in, read_ready,
};
use crate::efs::bitmap::{bit_blk, bit_set, bit_flipped, covers};
use crate::efs::consts::INVALID_INODE_NO;
use crate::efs::extent::{
    blocks_of, lemma_sound_placed, write_ready, write_hi, holds_prefix, range_sound, lemma_sound_frame, lemma_sound_sub, lemma_write_hi_mono, lemma_prefix_frame,
    lemma_splice_outside, others_untouched, lemma_untouched_frame, lemma_untouched_widen, lemma_sound_kept, marks_kept,
    fresh_blocks, blk_kept, blk_marked, range_uses, uses_at, on_walk, walk_marked, lemma_holds_prefix_intro,
    lemma_fresh_ready, lemma_fresh_frame, lemma_same_pointers, kept_outside, ptrs_kept, lemma_kept_extends,
    lemma_kept_frame, lemma_keep_same_pointers, byte_kept, high_kept,
};

verus! {

/// The 80 bytes of the entry at byte `off` of directory `n`.
pub open spec fn entry_bytes(view: Map<u64, Seq<u8>>, n: RawINode, off: int) -> Seq<u8> {
    Seq::new(80, |i: int| file_byte(view, n, off + i))
}

/// The bytes of the entry at `off` can be read from cached blocks.
pub open spec fn entry_known(view: Map<u64, Seq<u8>>, n: RawINode, off: int) -> bool {
    forall|i: int| 0 <= i < 80 ==> #[trigger] byte_known(view, n, off + i)
}

/// The entry at byte `off` of directory `n`.
pub open spec fn entry_at(view: Map<u64, Seq<u8>>, n: RawINode, off: int) -> RawDirent {
    choose|d: RawDirent| dirent_bytes(entry_bytes(view, n, off), d)
}

/// Whether the entry at `off` is free or names something other than
/// `name`.
pub open spec fn entry_misses(view: Map<u64, Seq<u8>>, n: RawINode, off: int, name: Seq<u8>) -> bool {
    entry_at(view, n, off).inode_no == 0 || dirent_name(entry_at(view, n, off)) != name
}

/// The end of the readable content of `n`: its size, or the largest file
/// size when that is smaller.
pub open spec fn content_end(n: RawINode) -> int {
    if n.size < MAX_FILE_SIZE {
        n.size as int
    } else {
        MAX_FILE_SIZE as int
    }
}

/// The blocks of directory `n`, up to one entry past its end, are laid out
/// soundly in file system `fs`.
pub open spec fn dir_ready<D: BlockDevice, A: BlockBufferAllocator>(fs: EfsFileSystem<D, A>, n: RawINode) -> bool {
    write_ready(fs, n, 0, n.size + 80)
}

/// The entry at byte `off` of directory `n` lies in cached blocks that the
/// directory's pointers reach.
pub open spec fn entry_placed(view: Map<u64, Seq<u8>>, n: RawINode, off: int) -> bool {
    holds_prefix(view, n, off, entry_bytes(view, n, off), 80)
}

/// An entry that an addition put in a directory is there for a later
/// lookup of its name, on the directory as the addition left it (more
/// blocks may have come into the cache since): that entry does not miss
/// the name, so a lookup cannot report the name absent.
pub proof fn lemma_added_entry_found(
    va: Map<u64, Seq<u8>>,
    vl: Map<u64, Seq<u8>>,
    n: RawINode,
    o: int,
    d: RawDirent,
    name: Seq<u8>,
)
    requires
        0 <= o,
        entry_placed(va, n, o),
        entry_at(va, n, o) == d,
        d.inode_no != 0,
        dirent_name(d) == name,
        extends(va, vl),
    ensures
        entry_known(vl, n, o),
        entry_at(vl, n, o) == d,
        !entry_misses(vl, n, o, name),
{
    assert forall|i: int| 0 <= i < 80 implies #[trigger] byte_known(va, n, o + i) by {
        assert(file_byte(va, n, o + i) == entry_bytes(va, n, o)[(o + i) - o]);
    }
    lemma_entry_extends(va, vl, n, o);
}

/// Directory `h` has its record cached and before the data bitmap, and its
/// blocks up to one entry past its end laid out soundly.
pub open spec fn dir_fits<D: BlockDevice, A: BlockBufferAllocator>(fs: EfsFileSystem<D, A>, h: INode) -> bool {
    &&& stored_inode(fs.cache.view(), h.blk_no, h.blk_offset as int, h.raw(fs.cache.view()))
    &&& h.blk_no < fs.data_bitmap.start_blk_no
    &&& dir_ready(fs, h.raw(fs.cache.view()))
}

/// The entry at byte `o` of the directory `h` can be read from cached
/// blocks: the content ends there, or a whole entry with a name of at
/// most 64 bytes lies there.
pub open spec fn dirent_readable<D: BlockDevice, A: BlockBufferAllocator>(fs: EfsFileSystem<D, A>, h: INode, o: int) -> bool {
    let v = fs.cache.view();
    let n = h.raw(v);
    let k = read_len(n.size as int, o, 80);
    &&& read_ready(fs, h, o, 80)
    &&& k == 0 || (k == 80 && entry_at(v, n, o).name_len <= 64)
}

/// Directory `h` takes an entry named `name` with no block to allocate
/// and nothing to read from the device: it fits an added entry, every
/// entry can be read from cached blocks, no used entry has the name, and
/// the blocks up to one entry past the end are in place and cached.
pub open spec fn entry_room<D: BlockDevice, A: BlockBufferAllocator>(
    fs: EfsFileSystem<D, A>,
    h: INode,
    name: Seq<u8>,
) -> bool {
    let v = fs.cache.view();
    let n = h.raw(v);
    &&& dir_fits(fs, h)
    &&& spec_file_type(n) == FileType::Directory
    &&& n.size + 80 <= MAX_FILE_SIZE
    &&& forall|o: int| 0 <= o <= n.size && o % 80 == 0 ==> #[trigger] dirent_readable(fs, h, o)
    &&& name_absent(v, n, name)
    &&& blocks_in_place(v, n, 0, write_hi(0, n.size + 80))
}

/// No used entry of directory `n` up to its size has the name `name`.
pub open spec fn name_absent(v: Map<u64, Seq<u8>>, n: RawINode, name: Seq<u8>) -> bool {
    forall|o: int|
        0 <= o && o % 80 == 0 && o + 80 <= n.size ==> (#[trigger] entry_at(v, n, o)).inode_no == 0 || dirent_name(
            entry_at(v, n, o),
        ) != name
}

/// An entry that can be read stays readable, and the same, when more
/// blocks are read in.
proof fn lemma_readable_extends<D: BlockDevice, A: BlockBufferAllocator>(
    a: EfsFileSystem<D, A>,
    b: EfsFileSystem<D, A>,
    h: INode,
    o: int,
)
    requires
        dirent_readable(a, h, o),
        extends(a.cache.view(), b.cache.view()),
        0 <= o,
    ensures
        dirent_readable(b, h, o),
        read_len(h.raw(a.cache.view()).size as int, o, 80) == 80 ==> entry_at(
            b.cache.view(),
            h.raw(b.cache.view()),
            o,
        ) == entry_at(a.cache.view(), h.raw(a.cache.view()), o),
{
    let va = a.cache.view();
    let vb = b.cache.view();
    let n = h.raw(va);
    lemma_stored_extends(va, vb, h.blk_no, h.blk_offset as int, n);
    let k = read_len(n.size as int, o, 80);
    lemma_ready_extends(va, vb, n, o, k);
    if k == 80 {
        assert(entry_known(va, n, o)) by {
            assert forall|i: int| 0 <= i < 80 implies #[trigger] byte_known(va, n, o + i) by {
                lemma_ready_at(va, n, o, 80, o + i);
            }
        }
        lemma_entry_extends(va, vb, n, o);
    }
}

/// Room for an entry stays when more blocks are read in.
proof fn lemma_room_extends<D: BlockDevice, A: BlockBufferAllocator>(
    a: EfsFileSystem<D, A>,
    b: EfsFileSystem<D, A>,
    h: INode,
    name: Seq<u8>,
)
    requires
        entry_room(a, h, name),
        fs_same_layout(a, b),
        extends(a.cache.view(), b.cache.view()),
    ensures
        entry_room(b, h, name),
        h.raw(b.cache.view()) == h.raw(a.cache.view()),
{
    let va = a.cache.view();
    let vb = b.cache.view();
    let n = h.raw(va);
    let hi0 = write_hi(0, n.size + 80);
    lemma_stored_extends(va, vb, h.blk_no, h.blk_offset as int, n);
    lemma_sound_frame(
        va,
        vb,
        n,
        a.data_bitmap.start_blk_no,
        a.data_start(),
        a.superblock.data_blocks as int,
        0,
        hi0,
        None,
    );
    assert forall|o: int| 0 <= o <= n.size && o % 80 == 0 implies #[trigger] dirent_readable(b, h, o) by {
        assert(dirent_readable(a, h, o));
        lemma_readable_extends(a, b, h, o);
    }
    assert forall|o: int| 0 <= o && o % 80 == 0 && o + 80 <= n.size implies (#[trigger] entry_at(vb, n, o)).inode_no
        == 0 || dirent_name(entry_at(vb, n, o)) != name by {
        assert(dirent_readable(a, h, o));
        lemma_readable_extends(a, b, h, o);
        assert(entry_at(va, n, o).inode_no == 0 || dirent_name(entry_at(va, n, o)) != name);
    }
    assert forall|j: int| 0 <= j < hi0 implies #[trigger] file_blk(vb, n, j) != 0 && vb.dom().contains(
        file_blk(vb, n, j),
    ) by {
        assert(file_blk(va, n, j) != 0);
    }
}

/// Every entry of directory `h` up to its end can be read from cached
/// blocks.
pub open spec fn all_readable<D: BlockDevice, A: BlockBufferAllocator>(fs: EfsFileSystem<D, A>, h: INode) -> bool {
    forall|o: int| 0 <= o <= h.raw(fs.cache.view()).size && o % 80 == 0 ==> #[trigger] dirent_readable(fs, h, o)
}

/// Directory `h` gives up its entry named `name` with nothing to read from
/// the device and no block to free: it is laid out soundly, every entry
/// can be read from cached blocks, and the last entry does not carry the
/// name, so that nothing is cut off the end.
pub open spec fn removal_room<D: BlockDevice, A: BlockBufferAllocator>(
    fs: EfsFileSystem<D, A>,
    h: INode,
    name: Seq<u8>,
) -> bool {
    let v = fs.cache.view();
    let n = h.raw(v);
    &&& dir_fits(fs, h)
    &&& spec_file_type(n) == FileType::Directory
    &&& all_readable(fs, h)
    &&& n.size >= 80 ==> entry_misses(v, n, n.size - 80, name)
}

/// Directory `h` gives up its entry named `name`, which names `child`, and
/// the link is counted off the child's cached record with nothing read
/// from the device: some used entry has the name, and each such entry
/// names `child`.
pub open spec fn unlink_room<D: BlockDevice, A: BlockBufferAllocator>(
    fs: EfsFileSystem<D, A>,
    h: INode,
    child: INode,
    name: Seq<u8>,
) -> bool {
    let v = fs.cache.view();
    let n = h.raw(v);
    &&& links_apart(fs, h, child)
    &&& removal_room(fs, h, name)
    &&& exists|o: int|
        0 <= o && o % 80 == 0 && o + 80 <= content_end(n) && !#[trigger] entry_misses(v, n, o, name)
    &&& forall|o: int|
        0 <= o && o % 80 == 0 && o + 80 <= n.size && !#[trigger] entry_misses(v, n, o, name)
            ==> entry_at(v, n, o).inode_no == child.ino
}

/// The same cached blocks over the same layout leave an unlink just as
/// ready.
proof fn lemma_unlink_room_same<D: BlockDevice, A: BlockBufferAllocator>(
    a: EfsFileSystem<D, A>,
    b: EfsFileSystem<D, A>,
    h: INode,
    child: INode,
    name: Seq<u8>,
)
    requires
        unlink_room(a, h, child, name),
        fs_same_layout(a, b),
        b.cache.view() == a.cache.view(),
    ensures
        unlink_room(b, h, child, name),
{
    assert forall|o: int| 0 <= o <= h.raw(b.cache.view()).size && o % 80 == 0 implies #[trigger] dirent_readable(b, h, o) by {
        assert(dirent_readable(a, h, o));
        lemma_readable_extends(a, b, h, o);
    }
}

/// The blocks of an entry whose bytes lie in cached blocks are in place.
proof fn lemma_entry_in_place(v: Map<u64, Seq<u8>>, n: RawINode, o: int)
    requires
        bytes_ready(v, n, o, 80),
        0 <= o,
        o + 80 <= MAX_FILE_SIZE,
    ensures
        blocks_in_place(v, n, o / 4096, write_hi(o, 80)),
{
    assert(write_hi(o, 80) == (o + 79) / 4096 + 1);
    assert forall|j: int| o / 4096 <= j < write_hi(o, 80) implies #[trigger] file_blk(v, n, j) != 0
        && v.dom().contains(file_blk(v, n, j)) by {
        assert((o + 79) / 4096 <= o / 4096 + 1) by (nonlinear_arith)
            requires
                0 <= o,
        ;
        if j == o / 4096 {
            lemma_ready_at(v, n, o, 80, o);
        } else {
            assert(j == (o + 79) / 4096);
            lemma_ready_at(v, n, o, 80, o + 79);
        }
    }
}

/// A byte of a sound range reads the same where every block of the data
/// region stayed as it was.
proof fn lemma_high_keeps_byte(
    va: Map<u64, Seq<u8>>,
    vb: Map<u64, Seq<u8>>,
    n: RawINode,
    start: u64,
    ds: int,
    nblks: int,
    hi: int,
    q: int,
)
    requires
        high_kept(va, vb, ds),
        range_sound(va, n, start, ds, nblks, 0, hi),
        0 <= q,
        q / 4096 < hi,
        byte_known(va, n, q),
        file_blk(va, n, q / 4096) != 0,
    ensures
        byte_known(vb, n, q),
        file_byte(vb, n, q) == file_byte(va, n, q),
        file_blk(vb, n, q / 4096) == file_blk(va, n, q / 4096),
{
    let j = q / 4096;
    assert(walk_marked(va, n, start, ds, nblks, j));
    if 12 <= j < 524 {
        assert(vb[n.indirect_blk_ptr] == va[n.indirect_blk_ptr]);
    } else if j >= 524 {
        assert(vb[n.double_indirect_blk_ptr] == va[n.double_indirect_blk_ptr]);
        assert(second_table(vb, n, j) == second_table(va, n, j));
        assert(vb[second_table(va, n, j)] == va[second_table(va, n, j)]);
    }
    assert(file_blk(vb, n, j) == file_blk(va, n, j));
    assert(blk_marked(va, start, ds, nblks, file_blk(va, n, j)));
}

/// Room for an entry stays where the directory's record and every block
/// of the data region stayed as they were and the directory still fits.
proof fn lemma_room_high<D: BlockDevice, A: BlockBufferAllocator>(
    a: EfsFileSystem<D, A>,
    b: EfsFileSystem<D, A>,
    h: INode,
    name: Seq<u8>,
)
    requires
        entry_room(a, h, name),
        fs_same_layout(a, b),
        high_kept(a.cache.view(), b.cache.view(), a.data_start()),
        dir_fits(b, h),
        h.raw(b.cache.view()) == h.raw(a.cache.view()),
    ensures
        entry_room(b, h, name),
{
    let va = a.cache.view();
    let vb = b.cache.view();
    let n = h.raw(va);
    let start = a.data_bitmap.start_blk_no;
    let ds = a.data_start();
    let nblks = a.superblock.data_blocks as int;
    let hi0 = write_hi(0, n.size + 80);
    assert forall|o: int| 0 <= o <= n.size && o % 80 == 0 implies #[trigger] dirent_readable(b, h, o) && (read_len(
        n.size as int,
        o,
        80,
    ) == 80 ==> entry_at(vb, n, o) == entry_at(va, n, o)) by {
        assert(dirent_readable(a, h, o));
        let k = read_len(n.size as int, o, 80);
        assert forall|q: int| o <= q < o + k implies #[trigger] byte_known(vb, n, q) && file_blk(vb, n, q / 4096)
            != 0 && file_byte(vb, n, q) == file_byte(va, n, q) by {
            lemma_ready_at(va, n, o, k, q);
            lemma_write_hi_mono(q, 1, n.size + 80);
            assert(q / 4096 < write_hi(q, 1));
            lemma_high_keeps_byte(va, vb, n, start, ds, nblks, hi0, q);
        }
        assert(bytes_ready(vb, n, o, k));
        if k == 80 {
            assert forall|i: int| 0 <= i < 80 implies #[trigger] byte_known(va, n, o + i) && file_byte(va, n, o + i)
                == file_byte(va, n, o + i) && file_blk(va, n, (o + i) / 4096) != 0 by {
                lemma_ready_at(va, n, o, 80, o + i);
            }
            assert forall|q: int| o <= q < o + 80 implies #[trigger] file_byte(va, n, q) == entry_bytes(va, n, o)[q - o]
                && byte_known(va, n, q) && file_blk(va, n, q / 4096) != 0 by {
                lemma_ready_at(va, n, o, 80, q);
            }
            lemma_holds_prefix_intro(va, n, o, entry_bytes(va, n, o), 80);
            assert forall|i: int| 0 <= i < 80 implies #[trigger] byte_known(vb, n, o + i) && file_byte(vb, n, o + i)
                == file_byte(va, n, o + i) && file_blk(vb, n, (o + i) / 4096) != 0 by {
                assert(byte_known(vb, n, o + i) && file_byte(vb, n, o + i) == file_byte(va, n, o + i));
            }
            lemma_entry_moved(va, vb, n, n, o);
        }
    }
    assert forall|o: int| 0 <= o && o % 80 == 0 && o + 80 <= n.size implies (#[trigger] entry_at(vb, n, o)).inode_no
        == 0 || dirent_name(entry_at(vb, n, o)) != name by {
        assert(dirent_readable(a, h, o));
        assert(dirent_readable(b, h, o));
        assert(read_len(n.size as int, o, 80) == 80);
        assert(entry_at(vb, n, o) == entry_at(va, n, o));
        assert(entry_at(va, n, o).inode_no == 0 || dirent_name(entry_at(va, n, o)) != name);
    }
    assert forall|j: int| 0 <= j < hi0 implies #[trigger] file_blk(vb, n, j) != 0 && vb.dom().contains(
        file_blk(vb, n, j),
    ) by {
        assert(file_blk(va, n, j) != 0 && va.dom().contains(file_blk(va, n, j)));
        assert(walk_marked(va, n, start, ds, nblks, j));
        if 12 <= j < 524 {
            assert(vb[n.indirect_blk_ptr] == va[n.indirect_blk_ptr]);
        } else if j >= 524 {
            assert(vb[n.double_indirect_blk_ptr] == va[n.double_indirect_blk_ptr]);
            assert(second_table(vb, n, j) == second_table(va, n, j));
            assert(vb[second_table(va, n, j)] == va[second_table(va, n, j)]);
        }
    }
}

/// A new entry named `name` for a new inode can be made in directory `h`
/// from cached blocks alone: the directory can take a new inode's entry
/// and is linked, the inode bitmap is cached with a free inode in it, and
/// the record of every free inode is cached and of no type.
pub open spec fn create_room<D: BlockDevice, A: BlockBufferAllocator>(
    fs: EfsFileSystem<D, A>,
    h: INode,
    name: Seq<u8>,
) -> bool {
    let v = fs.cache.view();
    let bits = fs.inode_bitmap.bits_len as int;
    &&& create_fits(fs, h)
    &&& entry_room(fs, h, name)
    &&& h.raw(v).nlink != 0
    &&& covers(v, 2, bits)
    &&& exists|j: int| 0 <= j < bits && !#[trigger] bit_set(v, 2, j)
    &&& forall|j: int| 0 <= j < bits && !#[trigger] bit_set(v, 2, j) ==> free_record_ready(fs, j)
}

/// The record of inode `j` is cached and of no type.
pub open spec fn free_record_ready<D: BlockDevice, A: BlockBufferAllocator>(fs: EfsFileSystem<D, A>, j: int) -> bool {
    let v = fs.cache.view();
    let blk = (2 + fs.superblock.inode_bitmap_blocks + j / 31) as u64;
    &&& stored_inode(v, blk, 132 * (j % 31), inode_in(v, blk, 132 * (j % 31)))
    &&& spec_file_type(inode_in(v, blk, 132 * (j % 31))) == FileType::Unknown
}

/// Room for a new inode's entry stays when more blocks are read in.
proof fn lemma_create_room_extends<D: BlockDevice, A: BlockBufferAllocator>(
    a: EfsFileSystem<D, A>,
    b: EfsFileSystem<D, A>,
    h: INode,
    name: Seq<u8>,
)
    requires
        create_room(a, h, name),
        fs_same_layout(a, b),
        extends(a.cache.view(), b.cache.view()),
    ensures
        create_room(b, h, name),
{
    let va = a.cache.view();
    let vb = b.cache.view();
    let bits = a.inode_bitmap.bits_len as int;
    lemma_create_fits_extends(a, b, h);
    lemma_room_extends(a, b, h, name);
    assert forall|j: int| 0 <= j < bits implies #[trigger] vb.dom().contains(bit_blk(2, j)) by {
        assert(va.dom().contains(bit_blk(2, j)));
    }
    let j0 = choose|j: int| 0 <= j < bits && !#[trigger] bit_set(va, 2, j);
    assert(va.dom().contains(bit_blk(2, j0)));
    assert(vb[bit_blk(2, j0)] == va[bit_blk(2, j0)]);
    assert(!bit_set(vb, 2, j0));
    assert forall|j: int| 0 <= j < bits && !#[trigger] bit_set(vb, 2, j) implies free_record_ready(b, j) by {
        assert(va.dom().contains(bit_blk(2, j)));
        assert(vb[bit_blk(2, j)] == va[bit_blk(2, j)]);
        assert(!bit_set(va, 2, j));
        assert(free_record_ready(a, j));
        let blk = (2 + a.superblock.inode_bitmap_blocks + j / 31) as u64;
        lemma_stored_extends(va, vb, blk, 132 * (j % 31), inode_in(va, blk, 132 * (j % 31)));
    }
}

/// Taking free inode `c` keeps its record cached and of no type, and
/// keeps every block of the data region.
proof fn lemma_create_room_alloc<D: BlockDevice, A: BlockBufferAllocator>(
    a: EfsFileSystem<D, A>,
    b: EfsFileSystem<D, A>,
    h: INode,
    c: INode,
    name: Seq<u8>,
)
    requires
        create_room(a, h, name),
        fs_same_layout(a, b),
        c.ino < a.inode_bitmap.bits_len,
        c.blk_no == 2 + a.superblock.inode_bitmap_blocks + c.ino / 31,
        c.blk_offset == 132 * (c.ino % 31),
        bit_flipped(a.cache.view(), b.cache.view(), 2, c.ino as int, true),
        a.cache.view().dom().contains(bit_blk(2, c.ino as int)) ==> !bit_set(a.cache.view(), 2, c.ino as int),
    ensures
        stored_inode(b.cache.view(), c.blk_no, c.blk_offset as int, c.raw(b.cache.view())),
        spec_file_type(c.raw(b.cache.view())) == FileType::Unknown,
        high_kept(a.cache.view(), b.cache.view(), a.data_start()),
{
    let va = a.cache.view();
    let vb = b.cache.view();
    let ino = c.ino as int;
    let bb = bit_blk(2, ino);
    assert(va.dom().contains(bb));
    assert(!bit_set(va, 2, ino));
    assert(free_record_ready(a, ino));
    let rb = c.blk_no;
    let ro = c.blk_offset as int;
    assert(bb < rb) by (nonlinear_arith)
        requires
            bb == (2 + ino / 32768) as u64,
            rb == 2 + a.superblock.inode_bitmap_blocks + ino / 31,
            ino < a.superblock.inode_blocks * 31,
            a.superblock.inode_blocks * 31 <= a.superblock.inode_bitmap_blocks * 32768,
            0 <= ino,
    ;
    assert(vb[rb] == va[rb]);
    lemma_inode_in(vb, rb, ro, inode_in(va, rb, ro));
    assert(bb < a.data_start());
}

/// A link of `child` into directory `h` meets a directory that fits an
/// added entry, and a child record that is cached, lies before the data
/// bitmap and apart from the directory's record.
pub open spec fn links_apart<D: BlockDevice, A: BlockBufferAllocator>(
    fs: EfsFileSystem<D, A>,
    h: INode,
    child: INode,
) -> bool {
    &&& dir_fits(fs, h)
    &&& stored_inode(fs.cache.view(), child.blk_no, child.blk_offset as int, child.raw(fs.cache.view()))
    &&& child.blk_no < fs.data_bitmap.start_blk_no
    &&& child.blk_offset + 132 <= 4096
    &&& records_apart(child.blk_no, child.blk_offset as int, h.blk_no, h.blk_offset as int)
}

/// A link of `child` into directory `h` meets a directory that fits an
/// added entry, and a child record that is cached, lies before the data
/// bitmap, and is the directory's own record or apart from it.
pub open spec fn link_fits<D: BlockDevice, A: BlockBufferAllocator>(
    fs: EfsFileSystem<D, A>,
    h: INode,
    child: INode,
) -> bool {
    &&& dir_fits(fs, h)
    &&& stored_inode(fs.cache.view(), child.blk_no, child.blk_offset as int, child.raw(fs.cache.view()))
    &&& child.blk_no < fs.data_bitmap.start_blk_no
    &&& child.blk_offset + 132 <= 4096
    &&& records_apart(child.blk_no, child.blk_offset as int, h.blk_no, h.blk_offset as int) || (child.blk_no
        == h.blk_no && child.blk_offset == h.blk_offset)
}

/// The record of `h` lies before the data bitmap, whose bits cover the
/// data blocks and lie before them.
pub open spec fn root_fits<D: BlockDevice, A: BlockBufferAllocator>(fs: EfsFileSystem<D, A>, h: INode) -> bool {
    &&& h.blk_no < fs.data_bitmap.start_blk_no
    &&& fs.data_bitmap.start_blk_no < fs.data_start()
    &&& fs.superblock.data_blocks <= (fs.data_start() - fs.data_bitmap.start_blk_no) * 32768
}

/// The used entries of directory `n` in the 80-byte slots from byte `lo`
/// up to byte `hi`, in order.
pub open spec fn used_entries(view: Map<u64, Seq<u8>>, n: RawINode, lo: int, hi: int) -> Seq<RawDirent>
    decreases hi - lo,
{
    if hi - lo < 80 {
        Seq::empty()
    } else {
        let prefix = used_entries(view, n, lo, hi - 80);
        if entry_at(view, n, hi - 80).inode_no != 0 {
            prefix.push(entry_at(view, n, hi - 80))
        } else {
            prefix
        }
    }
}

/// The kernel's type of a recorded type; an unknown type has none.
pub open spec fn kernel_type(t: FileType) -> Option<fcntl::FileType> {
    match t {
        FileType::File => Some(fcntl::FileType::RegularFile),
        FileType::Directory => Some(fcntl::FileType::Directory),
        FileType::Device => Some(fcntl::FileType::Device),
        FileType::Symlink => Some(fcntl::FileType::Symlink),
        FileType::Unknown => None,
    }
}

/// `out` is what the kernel is handed of entry `d`: its inode, its name
/// (the 64 recorded bytes, then zeros) and length, and its type.
pub open spec fn dirent_of(out: Dirent, d: RawDirent) -> bool {
    &&& out.inode_no == d.inode_no
    &&& out.name_len == d.name_len
    &&& kernel_type(d.typ) == Some(out.typ)
    &&& forall|k: int| 0 <= k < 64 ==> #[trigger] out.name@[k] == d.name@[k]
    &&& forall|k: int| 64 <= k < 256 ==> #[trigger] out.name@[k] == 0
}

proof fn lemma_used_extends(a: Map<u64, Seq<u8>>, b: Map<u64, Seq<u8>>, n: RawINode, lo: int, hi: int)
    requires
        extends(a, b),
        0 <= lo <= hi,
        (hi - lo) % 80 == 0,
        forall|o: int| lo <= o && o + 80 <= hi && (o - lo) % 80 == 0 ==> #[trigger] entry_known(a, n, o),
    ensures
        used_entries(b, n, lo, hi) == used_entries(a, n, lo, hi),
    decreases hi - lo,
{
    if hi - lo >= 80 {
        lemma_used_extends(a, b, n, lo, hi - 80);
        assert(entry_known(a, n, hi - 80));
        lemma_entry_extends(a, b, n, hi - 80);
    }
}

/// Directory `h` can take a new entry for a new inode: it fits an added
/// entry, it is the handle of its own inode, whose bit is set in a cached
/// block of an inode bitmap that lies before the inode records, and the
/// reserved inode 0 is marked taken there.
pub open spec fn create_fits<D: BlockDevice, A: BlockBufferAllocator>(fs: EfsFileSystem<D, A>, h: INode) -> bool {
    &&& dir_fits(fs, h)
    &&& h.ino < fs.superblock.inode_blocks * 31
    &&& h.blk_no == 2 + fs.superblock.inode_bitmap_blocks + h.ino / 31
    &&& h.blk_offset == 132 * (h.ino % 31)
    &&& fs.cache.view().dom().contains(bit_blk(2, h.ino as int))
    &&& bit_set(fs.cache.view(), 2, h.ino as int)
    &&& fs.cache.view().dom().contains(bit_blk(2, 0))
    &&& bit_set(fs.cache.view(), 2, 0)
    &&& fs.superblock.inode_blocks * 31 <= fs.superblock.inode_bitmap_blocks * 32768
}

/// A write into a fresh inode `c`, whose blocks were all free, keeps
/// directory `h` fit for a new entry, with the same record and the same
/// blocks.
proof fn lemma_dir_after_fresh_write<D: BlockDevice, A: BlockBufferAllocator>(
    a: EfsFileSystem<D, A>,
    b: EfsFileSystem<D, A>,
    h: INode,
    c: INode,
    hc: int,
)
    requires
        dir_fits(a, h),
        h.wf(),
        fs_same_layout(a, b),
        records_apart(h.blk_no, h.blk_offset as int, c.blk_no, c.blk_offset as int),
        others_kept(a.cache.view(), b.cache.view(), a.data_bitmap.start_blk_no, c),
        marks_kept(
            a.cache.view(),
            b.cache.view(),
            a.data_bitmap.start_blk_no,
            a.data_start(),
            a.superblock.data_blocks as int,
        ),
        others_untouched(
            a.cache.view(),
            b.cache.view(),
            c.raw(a.cache.view()),
            a.data_bitmap.start_blk_no,
            a.data_start(),
            a.superblock.data_blocks as int,
            0,
            hc,
        ),
        forall|x: u64| !#[trigger] range_uses(a.cache.view(), c.raw(a.cache.view()), 0, hc, x),
    ensures
        dir_fits(b, h),
        h.raw(b.cache.view()) == h.raw(a.cache.view()),
        forall|j: int|
            0 <= j < write_hi(0, h.raw(a.cache.view()).size + 80) ==> #[trigger] file_blk(
                b.cache.view(),
                h.raw(a.cache.view()),
                j,
            ) == file_blk(a.cache.view(), h.raw(a.cache.view()), j),
        forall|j: int|
            0 <= j < write_hi(0, h.raw(a.cache.view()).size + 80) && j >= 524 ==> #[trigger] second_table(
                b.cache.view(),
                h.raw(a.cache.view()),
                j,
            ) == second_table(a.cache.view(), h.raw(a.cache.view()), j),
{
    let va = a.cache.view();
    let vb = b.cache.view();
    let p = h.raw(va);
    let start = a.data_bitmap.start_blk_no;
    let ds = a.data_start();
    let nblks = a.superblock.data_blocks as int;
    let hp = write_hi(0, p.size + 80);
    assert(stored_inode(vb, h.blk_no, h.blk_offset as int, p));
    lemma_inode_in(vb, h.blk_no, h.blk_offset as int, p);
    assert forall|j: int, x: u64| 0 <= j < hp && #[trigger] on_walk(va, p, j, x) implies vb.dom().contains(x) && vb[x]
        == va[x] by {
        assert(walk_marked(va, p, start, ds, nblks, j));
        assert(!range_uses(va, c.raw(va), 0, hc, x));
        assert(blk_kept(va, vb, start, ds, nblks, x));
    }
    lemma_sound_kept(va, vb, p, start, ds, nblks, 0, hp);
}

/// The blocks that directory `p` reads on its walks are apart from the
/// one block that a fresh inode, written once, got: that block was free
/// while the directory's were marked.
proof fn lemma_walks_apart_from_fresh(
    v3: Map<u64, Seq<u8>>,
    v4: Map<u64, Seq<u8>>,
    p: RawINode,
    n3: RawINode,
    n4: RawINode,
    start: u64,
    ds: int,
    nblks: int,
    hp: int,
)
    requires
        range_sound(v3, p, start, ds, nblks, 0, hp),
        forall|j: int| 0 <= j < hp && j >= 524 ==> #[trigger] second_table(v4, p, j) == second_table(v3, p, j),
        fresh_blocks(v3, n3, v4, n4, start, ds, nblks, 0, 1),
        forall|i: int| 0 <= i < 12 ==> #[trigger] n3.direct_blk_ptrs@[i] == 0,
    ensures
        forall|j: int, x: u64| 0 <= j < hp && #[trigger] on_walk(v4, p, j, x) ==> !range_uses(v4, n4, 0, 1, x),
{
    assert forall|j: int, x: u64| 0 <= j < hp && #[trigger] on_walk(v4, p, j, x) implies !range_uses(v4, n4, 0, 1, x) by {
        if range_uses(v4, n4, 0, 1, x) {
            let k = choose|k: int| 0 <= k < 1 && #[trigger] uses_at(v4, n4, k, x);
            assert(k == 0);
            assert(n3.direct_blk_ptrs@[0] == 0);
            assert(file_blk(v3, n3, 0) == 0);
            assert(file_blk(v4, n4, 0) == x);
            assert(!blk_marked(v3, start, ds, nblks, x));
            assert(walk_marked(v3, p, start, ds, nblks, j));
            if j >= 524 {
                assert(second_table(v4, p, j) == second_table(v3, p, j));
            }
            assert(on_walk(v3, p, j, x));
        }
    }
}

/// A write that keeps what its own range does not use, into an inode
/// whose range uses none of the blocks that directory `p` reads on its
/// walks, keeps the directory's range sound, over the same blocks.
proof fn lemma_sound_apart(
    va: Map<u64, Seq<u8>>,
    vb: Map<u64, Seq<u8>>,
    p: RawINode,
    n: RawINode,
    start: u64,
    ds: int,
    nblks: int,
    hp: int,
    lo: int,
    hc: int,
)
    requires
        range_sound(va, p, start, ds, nblks, 0, hp),
        marks_kept(va, vb, start, ds, nblks),
        others_untouched(va, vb, n, start, ds, nblks, lo, hc),
        forall|j: int, x: u64| 0 <= j < hp && #[trigger] on_walk(va, p, j, x) ==> !range_uses(va, n, lo, hc, x),
    ensures
        range_sound(vb, p, start, ds, nblks, 0, hp),
        forall|j: int| 0 <= j < hp ==> #[trigger] file_blk(vb, p, j) == file_blk(va, p, j),
        forall|j: int| 0 <= j < hp && j >= 524 ==> #[trigger] second_table(vb, p, j) == second_table(va, p, j),
{
    assert forall|j: int, x: u64| 0 <= j < hp && #[trigger] on_walk(va, p, j, x) implies vb.dom().contains(x) && vb[x]
        == va[x] by {
        assert(walk_marked(va, p, start, ds, nblks, j));
        assert(blk_kept(va, vb, start, ds, nblks, x));
    }
    lemma_sound_kept(va, vb, p, start, ds, nblks, 0, hp);
}

/// An entry whose bytes read the same through inode `nb` in `vb` as
/// through `na` in `va` is the same entry, placed there too.
proof fn lemma_entry_moved(va: Map<u64, Seq<u8>>, vb: Map<u64, Seq<u8>>, na: RawINode, nb: RawINode, o: int)
    requires
        entry_placed(va, na, o),
        forall|i: int|
            0 <= i < 80 ==> #[trigger] byte_known(vb, nb, o + i) && file_byte(vb, nb, o + i) == file_byte(va, na, o + i)
                && file_blk(vb, nb, (o + i) / 4096) != 0,
    ensures
        entry_placed(vb, nb, o),
        entry_at(vb, nb, o) == entry_at(va, na, o),
{
    let eb = entry_bytes(va, na, o);
    assert(entry_bytes(vb, nb, o) =~= eb) by {
        assert forall|i: int| 0 <= i < 80 implies #[trigger] entry_bytes(vb, nb, o)[i] == eb[i] by {
            assert(byte_known(vb, nb, o + i));
            assert(file_byte(va, na, o + i) == eb[(o + i) - o]);
        }
    }
    assert forall|q: int| o <= q < o + 80 implies #[trigger] file_byte(vb, nb, q) == eb[q - o] && byte_known(vb, nb, q)
        && file_blk(vb, nb, q / 4096) != 0 by {
        assert(byte_known(vb, nb, o + (q - o)));
        assert(file_byte(va, na, q) == eb[q - o]);
    }
    lemma_holds_prefix_intro(vb, nb, o, eb, 80);
}

/// A block that was free while the blocks of a directory's sound range
/// were all marked is not used by that range, as long as the range's
/// walks still reach the same blocks.
proof fn lemma_fresh_not_used(
    v3: Map<u64, Seq<u8>>,
    v: Map<u64, Seq<u8>>,
    p: RawINode,
    start: u64,
    ds: int,
    nblks: int,
    hp: int,
    b: u64,
)
    requires
        range_sound(v3, p, start, ds, nblks, 0, hp),
        forall|j: int| 0 <= j < hp ==> #[trigger] file_blk(v, p, j) == file_blk(v3, p, j),
        forall|j: int| 0 <= j < hp && j >= 524 ==> #[trigger] second_table(v, p, j) == second_table(v3, p, j),
        !blk_marked(v3, start, ds, nblks, b),
    ensures
        !range_uses(v, p, 0, hp, b),
{
    if range_uses(v, p, 0, hp, b) {
        let j = choose|j: int| 0 <= j < hp && #[trigger] uses_at(v, p, j, b);
        assert(walk_marked(v3, p, start, ds, nblks, j));
        assert(file_blk(v, p, j) == file_blk(v3, p, j));
        if j >= 524 {
            assert(second_table(v, p, j) == second_table(v3, p, j));
        }
        assert(uses_at(v3, p, j, b));
    }
}

/// The two entries that a new directory got in its first block, the
/// first while the block was still free in `v3`, stay as they were
/// through a later write into directory `h5`, whose walks reach the blocks
/// they reached in `v3`.
#[verifier::rlimit(30)]
proof fn lemma_dir_entries_kept(
    v3: Map<u64, Seq<u8>>,
    v4: Map<u64, Seq<u8>>,
    v5: Map<u64, Seq<u8>>,
    v6: Map<u64, Seq<u8>>,
    c3: RawINode,
    c4: RawINode,
    c5: RawINode,
    c6: RawINode,
    h3: RawINode,
    h5: RawINode,
    start: u64,
    ds: int,
    nblks: int,
    hp: int,
)
    requires
        range_sound(v3, h3, start, ds, nblks, 0, hp),
        forall|j: int| 0 <= j < hp ==> #[trigger] file_blk(v5, h3, j) == file_blk(v3, h3, j),
        forall|j: int| 0 <= j < hp && j >= 524 ==> #[trigger] second_table(v5, h3, j) == second_table(v3, h3, j),
        h5.direct_blk_ptrs == h3.direct_blk_ptrs,
        h5.indirect_blk_ptr == h3.indirect_blk_ptr,
        h5.double_indirect_blk_ptr == h3.double_indirect_blk_ptr,
        forall|i: int| 0 <= i < 12 ==> #[trigger] c3.direct_blk_ptrs@[i] == 0,
        fresh_blocks(v3, c3, v4, c4, start, ds, nblks, 0, 1),
        entry_placed(v4, c4, 0),
        entry_known(v4, c4, 0),
        kept_outside(v4, v5, c4, c5, 80, 80, 0, 1),
        ptrs_kept(v4, c4, v5, c5, 0, 1),
        entry_placed(v5, c5, 80),
        range_sound(v5, c5, start, ds, nblks, 0, 1),
        others_untouched(v5, v6, h5, start, ds, nblks, 0, hp),
        c6.direct_blk_ptrs == c5.direct_blk_ptrs,
    ensures
        entry_placed(v6, c6, 0),
        entry_at(v6, c6, 0) == entry_at(v4, c4, 0),
        entry_placed(v6, c6, 80),
        entry_at(v6, c6, 80) == entry_at(v5, c5, 80),
{
    let b0 = file_blk(v4, c4, 0);
    assert(file_byte(v4, c4, 0) == entry_bytes(v4, c4, 0)[0]);
    assert(b0 != 0);
    assert forall|i: int| 0 <= i < 80 implies #[trigger] byte_known(v5, c5, 0 + i) && file_byte(v5, c5, 0 + i)
        == file_byte(v4, c4, 0 + i) && file_blk(v5, c5, (0 + i) / 4096) != 0 by {
        assert(file_byte(v4, c4, 0 + i) == entry_bytes(v4, c4, 0)[(0 + i) - 0]);
        assert(byte_kept(v4, v5, c4, c5, 0 + i));
        assert(file_blk(v5, c5, 0) == b0);
    }
    lemma_entry_moved(v4, v5, c4, c5, 0);
    assert(file_blk(v5, c5, 0) == b0);
    assert(c3.direct_blk_ptrs@[0] == 0);
    assert(file_blk(v3, c3, 0) == 0);
    assert(!blk_marked(v3, start, ds, nblks, b0));
    assert(blk_marked(v5, start, ds, nblks, b0));
    lemma_fresh_not_used(v3, v5, h3, start, ds, nblks, hp, b0);
    assert(!range_uses(v5, h5, 0, hp, b0)) by {
        if range_uses(v5, h5, 0, hp, b0) {
            let j = choose|j: int| 0 <= j < hp && #[trigger] uses_at(v5, h5, j, b0);
            assert(file_blk(v5, h5, j) == file_blk(v5, h3, j));
            assert(second_table(v5, h5, j) == second_table(v5, h3, j));
            assert(uses_at(v5, h3, j, b0));
        }
    }
    assert(v5.dom().contains(b0)) by {
        assert(byte_known(v5, c5, 0));
    }
    assert(blk_kept(v5, v6, start, ds, nblks, b0));
    assert forall|q: int| 0 <= q < 160 implies #[trigger] byte_known(v6, c6, q) && file_byte(v6, c6, q) == file_byte(
        v5,
        c5,
        q,
    ) && file_blk(v6, c6, q / 4096) == b0 by {
        assert(q / 4096 == 0);
    }
    assert forall|i: int| 0 <= i < 80 implies #[trigger] byte_known(v6, c6, 0 + i) && file_byte(v6, c6, 0 + i)
        == file_byte(v5, c5, 0 + i) && file_blk(v6, c6, (0 + i) / 4096) != 0 by {
        assert(file_blk(v6, c6, (0 + i) / 4096) == b0);
    }
    lemma_entry_moved(v5, v6, c5, c6, 0);
    assert forall|i: int| 0 <= i < 80 implies #[trigger] byte_known(v6, c6, 80 + i) && file_byte(v6, c6, 80 + i)
        == file_byte(v5, c5, 80 + i) && file_blk(v6, c6, (80 + i) / 4096) != 0 by {
        assert(file_blk(v6, c6, (80 + i) / 4096) == b0);
    }
    lemma_entry_moved(v5, v6, c5, c6, 80);
}

/// A placed entry stays placed, and the same, when more blocks are read
/// in.
pub proof fn lemma_entry_placed_extends(a: Map<u64, Seq<u8>>, b: Map<u64, Seq<u8>>, n: RawINode, o: int)
    requires
        extends(a, b),
        entry_placed(a, n, o),
        o >= 0,
    ensures
        entry_placed(b, n, o),
        entry_at(b, n, o) == entry_at(a, n, o),
{
    assert(entry_known(a, n, o)) by {
        assert forall|i: int| 0 <= i < 80 implies #[trigger] byte_known(a, n, o + i) by {
            assert(file_byte(a, n, o + i) == entry_bytes(a, n, o)[(o + i) - o]);
        }
    }
    lemma_entry_extends(a, b, n, o);
    assert forall|i: int| 0 <= i < 80 implies #[trigger] byte_known(b, n, o + i) && file_byte(b, n, o + i) == file_byte(
        a,
        n,
        o + i,
    ) && file_blk(b, n, (o + i) / 4096) != 0 by {
        assert(file_byte(a, n, o + i) == entry_bytes(a, n, o)[(o + i) - o]);
        crate::efs::file::lemma_extends_keeps_byte_pub(a, b, n, o + i);
        assert(walk_known(a, n, (o + i) / 4096));
        assert(file_blk(b, n, (o + i) / 4096) == file_blk(a, n, (o + i) / 4096));
    }
    lemma_entry_moved(a, b, n, n, o);
}

/// Bytes written into the first block of a fresh inode stay there when a
/// later write into directory `p` keeps what it does not use: the block
/// was free when the directory's blocks were all marked.
proof fn lemma_content_survives_link(
    v3: Map<u64, Seq<u8>>,
    v4: Map<u64, Seq<u8>>,
    v5: Map<u64, Seq<u8>>,
    p: RawINode,
    n3: RawINode,
    n4: RawINode,
    n5: RawINode,
    start: u64,
    ds: int,
    nblks: int,
    hp: int,
    hc: int,
    src: Seq<u8>,
    len: int,
)
    requires
        range_sound(v3, p, start, ds, nblks, 0, hp),
        forall|j: int| 0 <= j < hp ==> #[trigger] file_blk(v4, p, j) == file_blk(v3, p, j),
        forall|j: int| 0 <= j < hp && j >= 524 ==> #[trigger] second_table(v4, p, j) == second_table(v3, p, j),
        range_sound(v4, n4, start, ds, nblks, 0, hc),
        fresh_blocks(v3, n3, v4, n4, start, ds, nblks, 0, hc),
        forall|i: int| 0 <= i < 12 ==> #[trigger] n3.direct_blk_ptrs@[i] == 0,
        holds_prefix(v4, n4, 0, src, len),
        0 <= len <= 4096,
        len > 0 ==> hc >= 1,
        others_untouched(v4, v5, p, start, ds, nblks, 0, hp),
        n5.direct_blk_ptrs == n4.direct_blk_ptrs,
    ensures
        holds_prefix(v5, n5, 0, src, len),
{
    if len > 0 {
        assert(file_byte(v4, n4, 0) == src[0]);
        let b = file_blk(v4, n4, 0);
        assert(n3.direct_blk_ptrs@[0] == 0);
        assert(file_blk(v3, n3, 0) == 0);
        assert(!blk_marked(v3, start, ds, nblks, b));
        assert(blk_marked(v4, start, ds, nblks, b));
        if range_uses(v4, p, 0, hp, b) {
            let j = choose|j: int| 0 <= j < hp && #[trigger] uses_at(v4, p, j, b);
            assert(walk_marked(v3, p, start, ds, nblks, j));
            assert(file_blk(v4, p, j) == file_blk(v3, p, j));
            if j >= 524 {
                assert(second_table(v4, p, j) == second_table(v3, p, j));
            }
            assert(uses_at(v3, p, j, b));
        }
        assert(blk_kept(v4, v5, start, ds, nblks, b));
        assert forall|q: int| 0 <= q < 0 + len implies #[trigger] file_byte(v5, n5, q) == src[q - 0] && byte_known(
            v5,
            n5,
            q,
        ) && file_blk(v5, n5, q / 4096) != 0 by {
            assert(q / 4096 == 0);
            assert(file_byte(v4, n4, q) == src[q - 0]);
            assert(file_blk(v5, n5, 0) == b);
        }
    }
    lemma_holds_prefix_intro(v5, n5, 0, src, len);
}

/// Reading blocks in keeps a directory fit for a new entry.
proof fn lemma_create_fits_extends<D: BlockDevice, A: BlockBufferAllocator>(
    a: EfsFileSystem<D, A>,
    b: EfsFileSystem<D, A>,
    h: INode,
)
    requires
        create_fits(a, h),
        fs_same_layout(a, b),
        extends(a.cache.view(), b.cache.view()),
    ensures
        create_fits(b, h),
        h.raw(b.cache.view()) == h.raw(a.cache.view()),
{
    let v = a.cache.view();
    lemma_stored_extends(v, b.cache.view(), h.blk_no, h.blk_offset as int, h.raw(v));
    lemma_sound_frame(
        v,
        b.cache.view(),
        h.raw(v),
        a.data_bitmap.start_blk_no,
        a.data_start(),
        a.superblock.data_blocks as int,
        0,
        write_hi(0, h.raw(v).size + 80),
        None,
    );
    assert(b.cache.view()[bit_blk(2, h.ino as int)] == v[bit_blk(2, h.ino as int)]);
}

/// A newly allocated inode is another than the directory's own, its record
/// lies apart from the directory's and before the data bitmap, and setting
/// its bit kept the directory fit for an added entry.
proof fn lemma_child_apart<D: BlockDevice, A: BlockBufferAllocator>(
    a: EfsFileSystem<D, A>,
    b: EfsFileSystem<D, A>,
    h: INode,
    c: INode,
)
    requires
        create_fits(a, h),
        fs_same_layout(a, b),
        c.ino < a.inode_bitmap.bits_len,
        c.blk_no == 2 + a.superblock.inode_bitmap_blocks + c.ino / 31,
        c.blk_offset == 132 * (c.ino % 31),
        bit_flipped(a.cache.view(), b.cache.view(), 2, c.ino as int, true),
        a.cache.view().dom().contains(bit_blk(2, c.ino as int)) ==> !bit_set(a.cache.view(), 2, c.ino as int),
    ensures
        c.ino != h.ino,
        records_apart(c.blk_no, c.blk_offset as int, h.blk_no, h.blk_offset as int),
        c.blk_no < b.data_bitmap.start_blk_no,
        dir_fits(b, h),
        h.raw(b.cache.view()) == h.raw(a.cache.view()),
{
    let v = a.cache.view();
    let v2 = b.cache.view();
    let ibb = a.superblock.inode_bitmap_blocks as int;
    let ib = a.superblock.inode_blocks as int;
    let bb = bit_blk(2, c.ino as int);
    assert(c.ino != h.ino);
    assert(records_apart(c.blk_no, c.blk_offset as int, h.blk_no, h.blk_offset as int)) by (nonlinear_arith)
        requires
            c.ino != h.ino,
            c.blk_no == 2 + ibb + c.ino / 31,
            c.blk_offset == 132 * (c.ino % 31),
            h.blk_no == 2 + ibb + h.ino / 31,
            h.blk_offset == 132 * (h.ino % 31),
    ;
    assert(c.ino / 32768 < ibb) by (nonlinear_arith)
        requires
            c.ino < ib * 31,
            ib * 31 <= ibb * 32768,
    ;
    assert(bb < 2 + ibb);
    assert(bb != h.blk_no);
    assert(c.blk_no < 2 + ibb + ib) by (nonlinear_arith)
        requires
            c.ino < ib * 31,
            c.blk_no == 2 + ibb + c.ino / 31,
    ;
    let n = h.raw(v);
    assert(v2[h.blk_no] == v[h.blk_no]);
    lemma_inode_in(v2, h.blk_no, h.blk_offset as int, n);
    lemma_sound_frame(
        v,
        v2,
        n,
        a.data_bitmap.start_blk_no,
        a.data_start(),
        a.superblock.data_blocks as int,
        0,
        write_hi(0, n.size + 80),
        Some(bb),
    );
}

/// Writing the record of another inode, before the data bitmap and apart
/// from the directory's, keeps the directory fit for an added entry.
proof fn lemma_record_write_keeps_dir<D: BlockDevice, A: BlockBufferAllocator>(
    a: EfsFileSystem<D, A>,
    b: EfsFileSystem<D, A>,
    h: INode,
    c: INode,
)
    requires
        dir_fits(a, h),
        fs_same_layout(a, b),
        only_record(a.cache.view(), b.cache.view(), c),
        records_apart(c.blk_no, c.blk_offset as int, h.blk_no, h.blk_offset as int),
        c.blk_no < a.data_bitmap.start_blk_no,
        c.blk_offset + 132 <= 4096,
        h.blk_offset + 132 <= 4096,
        forall|x: u64| #[trigger] a.cache.view().dom().contains(x) ==> a.cache.view()[x].len() == 4096,
    ensures
        dir_fits(b, h),
        h.raw(b.cache.view()) == h.raw(a.cache.view()),
{
    let v = a.cache.view();
    let v2 = b.cache.view();
    let n = h.raw(v);
    if c.blk_no == h.blk_no {
        lemma_splice_outside(
            v[h.blk_no],
            c.blk_offset as int,
            v2[c.blk_no].subrange(c.blk_offset as int, c.blk_offset + 132),
            h.blk_offset as int,
            132,
        );
    }
    assert(v2[h.blk_no].subrange(h.blk_offset as int, h.blk_offset + 132) == v[h.blk_no].subrange(
        h.blk_offset as int,
        h.blk_offset + 132,
    ));
    lemma_inode_in(v2, h.blk_no, h.blk_offset as int, n);
    lemma_sound_frame(
        v,
        v2,
        n,
        a.data_bitmap.start_blk_no,
        a.data_start(),
        a.superblock.data_blocks as int,
        0,
        write_hi(0, n.size + 80),
        Some(c.blk_no),
    );
}

/// Between `v0` and `v`, the used entry at byte `o` of directory `n0`
/// (now `n`), which named inode `ino` by `name`, was freed (and its blocks
/// stay laid out soundly over the data bitmap at `start` and the `nblks`
/// data blocks from `ds`), or cut off the end of the directory.
pub open spec fn removed_at(
    v0: Map<u64, Seq<u8>>,
    v: Map<u64, Seq<u8>>,
    n0: RawINode,
    n: RawINode,
    o: int,
    ino: u64,
    name: Seq<u8>,
    start: u64,
    ds: int,
    nblks: int,
) -> bool {
    &&& (entry_placed(v, n, o) && entry_at(v, n, o).inode_no == 0 && o + 80 <= MAX_FILE_SIZE && range_sound(
        v,
        n,
        start,
        ds,
        nblks,
        o / 4096,
        write_hi(o, 80),
    )) || n.size == o
    &&& entry_known(v0, n0, o) ==> entry_at(v0, n0, o).inode_no == ino && dirent_name(entry_at(v0, n0, o)) == name
}

/// Some used entry of directory `n0` in `v0`, which named inode `ino` by
/// `name`, was removed in `v` (see `removed_at`).
pub open spec fn entry_removed(
    v0: Map<u64, Seq<u8>>,
    v: Map<u64, Seq<u8>>,
    n0: RawINode,
    n: RawINode,
    ino: u64,
    name: Seq<u8>,
    start: u64,
    ds: int,
    nblks: int,
) -> bool {
    exists|o: int| 0 <= o && o % 80 == 0 && #[trigger] removed_at(v0, v, n0, n, o, ino, name, start, ds, nblks)
}

/// Freeing the used entry at `o` (and cutting it off when it was the last
/// one) removed it, and kept the other inode records.
proof fn lemma_remove_done(
    v0: Map<u64, Seq<u8>>,
    va: Map<u64, Seq<u8>>,
    vw: Map<u64, Seq<u8>>,
    vf: Map<u64, Seq<u8>>,
    h: INode,
    n: RawINode,
    o: int,
    ino: u64,
    name: Seq<u8>,
    start: u64,
    ds: int,
    nblks: int,
    cut: bool,
)
    requires
        extends(v0, va),
        n == h.raw(v0),
        0 <= o,
        o % 80 == 0,
        entry_known(va, n, o),
        entry_at(va, n, o).inode_no == ino,
        dirent_name(entry_at(va, n, o)) == name,
        others_kept(va, vw, start, h),
        entry_placed(vw, h.raw(vw), o),
        entry_at(vw, h.raw(vw), o).inode_no == 0,
        range_sound(vw, h.raw(vw), start, ds, nblks, o / 4096, write_hi(o, 80)),
        o + 80 <= MAX_FILE_SIZE,
        cut ==> others_kept(vw, vf, start, h) && h.raw(vf).size == o,
        !cut ==> vf == vw,
    ensures
        others_kept(v0, vf, start, h),
        entry_removed(v0, vf, h.raw(v0), h.raw(vf), ino, name, start, ds, nblks),
{
    assert forall|cb: u64, co: int, m: RawINode|
        cb < start && 0 <= co && co + 132 <= 4096 && records_apart(cb, co, h.blk_no, h.blk_offset as int)
            && stored_inode(v0, cb, co, m) implies #[trigger] stored_inode(vf, cb, co, m) by {
        lemma_stored_extends(v0, va, cb, co, m);
        assert(stored_inode(vw, cb, co, m));
    }
    if entry_known(v0, n, o) {
        lemma_entry_extends(v0, va, n, o);
    }
    assert(removed_at(v0, vf, h.raw(v0), h.raw(vf), o, ino, name, start, ds, nblks));
}

/// An entry removed since a later state of the cache was removed since an
/// earlier one too.
proof fn lemma_removed_back(
    v0: Map<u64, Seq<u8>>,
    vu: Map<u64, Seq<u8>>,
    v: Map<u64, Seq<u8>>,
    n0: RawINode,
    n: RawINode,
    ino: u64,
    name: Seq<u8>,
    start: u64,
    ds: int,
    nblks: int,
)
    requires
        extends(v0, vu),
        entry_removed(vu, v, n0, n, ino, name, start, ds, nblks),
    ensures
        entry_removed(v0, v, n0, n, ino, name, start, ds, nblks),
{
    let o = choose|o: int| 0 <= o && o % 80 == 0 && #[trigger] removed_at(vu, v, n0, n, o, ino, name, start, ds, nblks);
    if entry_known(v0, n0, o) {
        lemma_entry_extends(v0, vu, n0, o);
    }
    assert(removed_at(v0, v, n0, n, o, ino, name, start, ds, nblks));
}

/// How directory `c`, named `name` in directory `h`, was removed, through
/// the states `f1` and `f2` between `f0` and `f`: first its `..` entry,
/// naming `h`, went and `h` counted one link less; then, where `c` still
/// fitted its cached blocks (`dir_fits`), its `.` entry, naming itself,
/// went and it counted one link less; last, where the two records lay
/// apart (`links_apart`), the entry `name` of `h` went and `c` counted one
/// link less.
pub open spec fn dir_unlinked<D: BlockDevice, A: BlockBufferAllocator>(
    f0: EfsFileSystem<D, A>,
    f1: EfsFileSystem<D, A>,
    f2: EfsFileSystem<D, A>,
    f: EfsFileSystem<D, A>,
    h: INode,
    c: INode,
    name: Seq<u8>,
) -> bool {
    let v0 = f0.cache.view();
    let v1 = f1.cache.view();
    let v2 = f2.cache.view();
    let v = f.cache.view();
    let start = f0.data_bitmap.start_blk_no;
    let ds = f0.data_start();
    let nblks = f0.superblock.data_blocks as int;
    &&& fs_same_layout(f0, f1)
    &&& fs_same_layout(f0, f2)
    &&& h.raw(v1) == (RawINode {
        nlink: if h.raw(v0).nlink == 0 {
            0
        } else {
            (h.raw(v0).nlink - 1) as u32
        },
        ..h.raw(v0)
    })
    &&& entry_removed(v0, v1, c.raw(v0), c.raw(v1), h.ino, seq![46u8, 46u8], start, ds, nblks)
    &&& dir_fits(f1, c) ==> ({
        &&& c.raw(v2).nlink == (if c.raw(v1).nlink == 0 {
            0
        } else {
            c.raw(v1).nlink - 1
        })
        &&& spec_file_type(c.raw(v2)) == spec_file_type(c.raw(v1))
        &&& entry_removed(v1, v2, c.raw(v1), c.raw(v2), c.ino, seq![46u8], start, ds, nblks)
    })
    &&& links_apart(f2, h, c) ==> ({
        &&& c.raw(v) == (RawINode {
            nlink: if c.raw(v2).nlink == 0 {
                0
            } else {
                (c.raw(v2).nlink - 1) as u32
            },
            ..c.raw(v2)
        })
        &&& entry_removed(v2, v, h.raw(v2), h.raw(v), c.ino, name, start, ds, nblks)
    })
}

/// Reading blocks in keeps a link fitting.
proof fn lemma_links_apart_extends<D: BlockDevice, A: BlockBufferAllocator>(
    a: EfsFileSystem<D, A>,
    b: EfsFileSystem<D, A>,
    h: INode,
    c: INode,
)
    requires
        links_apart(a, h, c),
        fs_same_layout(a, b),
        extends(a.cache.view(), b.cache.view()),
    ensures
        links_apart(b, h, c),
{
    let v = a.cache.view();
    lemma_stored_extends(v, b.cache.view(), h.blk_no, h.blk_offset as int, h.raw(v));
    lemma_stored_extends(v, b.cache.view(), c.blk_no, c.blk_offset as int, c.raw(v));
    lemma_sound_frame(
        v,
        b.cache.view(),
        h.raw(v),
        a.data_bitmap.start_blk_no,
        a.data_start(),
        a.superblock.data_blocks as int,
        0,
        write_hi(0, h.raw(v).size + 80),
        None,
    );
}

/// Writing the record of a child apart from the directory's, before the
/// data bitmap, keeps a removed entry removed.
proof fn lemma_unlink_done(
    v0: Map<u64, Seq<u8>>,
    v1: Map<u64, Seq<u8>>,
    v3: Map<u64, Seq<u8>>,
    h: INode,
    c: INode,
    ino: u64,
    name: Seq<u8>,
    start: u64,
    ds: int,
    nblks: int,
)
    requires
        entry_removed(v0, v1, h.raw(v0), h.raw(v1), ino, name, start, ds, nblks),
        stored_inode(v1, h.blk_no, h.blk_offset as int, h.raw(v1)),
        only_record(v1, v3, c),
        c.blk_no < start,
        start < ds,
        c.blk_offset + 132 <= 4096,
        h.blk_offset + 132 <= 4096,
        records_apart(c.blk_no, c.blk_offset as int, h.blk_no, h.blk_offset as int),
        forall|x: u64| #[trigger] v1.dom().contains(x) ==> v1[x].len() == 4096,
    ensures
        entry_removed(v0, v3, h.raw(v0), h.raw(v3), ino, name, start, ds, nblks),
{
    let n1 = h.raw(v1);
    let o = choose|o: int| 0 <= o && o % 80 == 0 && #[trigger] removed_at(v0, v1, h.raw(v0), n1, o, ino, name, start, ds, nblks);
    if c.blk_no == h.blk_no {
        lemma_splice_outside(
            v1[h.blk_no],
            c.blk_offset as int,
            v3[c.blk_no].subrange(c.blk_offset as int, c.blk_offset + 132),
            h.blk_offset as int,
            132,
        );
    }
    assert(stored_inode(v3, h.blk_no, h.blk_offset as int, n1));
    lemma_inode_in(v3, h.blk_no, h.blk_offset as int, n1);
    if !(n1.size == o) {
        let eb = entry_bytes(v1, n1, o);
        assert(write_len(o, 80) == 80);
        lemma_prefix_frame(v1, v3, n1, start, ds, nblks, write_hi(o, 80), o, eb, 80, c.blk_no);
        assert(entry_bytes(v3, n1, o) =~= eb) by {
            assert forall|i: int| 0 <= i < 80 implies #[trigger] entry_bytes(v3, n1, o)[i] == eb[i] by {
                assert(file_byte(v3, n1, o + i) == eb[(o + i) - o]);
            }
        }
        assert(entry_at(v3, n1, o) == entry_at(v1, n1, o));
        lemma_sound_frame(v1, v3, n1, start, ds, nblks, o / 4096, write_hi(o, 80), Some(c.blk_no));
    }
    assert(removed_at(v0, v3, h.raw(v0), h.raw(v3), o, ino, name, start, ds, nblks));
}

/// An entry removed from a directory stays removed when the count of
/// links is then written into the directory's own record.
proof fn lemma_unlink_self_done(
    v0: Map<u64, Seq<u8>>,
    v1: Map<u64, Seq<u8>>,
    v3: Map<u64, Seq<u8>>,
    h: INode,
    n3: RawINode,
    ino: u64,
    name: Seq<u8>,
    start: u64,
    ds: int,
    nblks: int,
)
    requires
        entry_removed(v0, v1, h.raw(v0), h.raw(v1), ino, name, start, ds, nblks),
        only_record(v1, v3, h),
        h.raw(v3) == n3,
        n3.direct_blk_ptrs == h.raw(v1).direct_blk_ptrs,
        n3.indirect_blk_ptr == h.raw(v1).indirect_blk_ptr,
        n3.double_indirect_blk_ptr == h.raw(v1).double_indirect_blk_ptr,
        n3.size == h.raw(v1).size,
        h.blk_no < start,
        start < ds,
    ensures
        entry_removed(v0, v3, h.raw(v0), n3, ino, name, start, ds, nblks),
{
    let n1 = h.raw(v1);
    let o = choose|o: int| 0 <= o && o % 80 == 0 && #[trigger] removed_at(v0, v1, h.raw(v0), n1, o, ino, name, start, ds, nblks);
    if !(n1.size == o) {
        let eb = entry_bytes(v1, n1, o);
        assert(write_len(o, 80) == 80);
        lemma_prefix_frame(v1, v3, n1, start, ds, nblks, write_hi(o, 80), o, eb, 80, h.blk_no);
        lemma_sound_frame(v1, v3, n1, start, ds, nblks, o / 4096, write_hi(o, 80), Some(h.blk_no));
        lemma_same_pointers(v3, n1, n3, start, ds, nblks, o / 4096, write_hi(o, 80), o, eb, 80);
        assert(entry_bytes(v3, n3, o) =~= eb) by {
            assert forall|i: int| 0 <= i < 80 implies #[trigger] entry_bytes(v3, n3, o)[i] == eb[i] by {
                assert(file_byte(v3, n3, o + i) == eb[(o + i) - o]);
            }
        }
        assert(entry_at(v3, n3, o) == entry_at(v1, n1, o));
    }
    assert(removed_at(v0, v3, h.raw(v0), n3, o, ino, name, start, ds, nblks));
}

/// The blocks a cut at byte `o` frees lie among those the entry at `o`
/// reaches.
proof fn lemma_blocks_of_entry(o: int)
    requires
        0 <= o,
        o + 80 <= MAX_FILE_SIZE,
    ensures
        o / 4096 <= blocks_of(o),
        blocks_of(o + 80) == write_hi(o, 80),
{
    assert(o / 4096 <= blocks_of(o)) by (nonlinear_arith)
        requires
            0 <= o,
            blocks_of(o) == (if o <= 0 {
                0
            } else {
                (o - 1) / 4096 + 1
            }),
    ;
    assert(write_len(o, 80) == 80);
}

/// An entry's bytes give one entry only.
pub proof fn lemma_dirent_unique(b: Seq<u8>, d: RawDirent, e: RawDirent)
    requires
        dirent_bytes(b, d),
        dirent_bytes(b, e),
    ensures
        d == e,
{
    assert(d.name@ =~= b.subrange(16, 80));
    assert(e.name@ =~= b.subrange(16, 80));
    assert(d.name@ =~= e.name@);
    assert(forall|i: int| 0 <= i < 64 ==> d.name[i] == e.name[i]);
    assert(d.name =~= e.name);
}

proof fn lemma_entry_at(view: Map<u64, Seq<u8>>, n: RawINode, off: int, d: RawDirent)
    requires
        dirent_bytes(entry_bytes(view, n, off), d),
    ensures
        entry_at(view, n, off) == d,
{
    let e = entry_at(view, n, off);
    lemma_dirent_unique(entry_bytes(view, n, off), d, e);
}

proof fn lemma_entry_extends(a: Map<u64, Seq<u8>>, b: Map<u64, Seq<u8>>, n: RawINode, off: int)
    requires
        extends(a, b),
        entry_known(a, n, off),
        off >= 0,
    ensures
        entry_known(b, n, off),
        entry_bytes(b, n, off) == entry_bytes(a, n, off),
        entry_at(b, n, off) == entry_at(a, n, off),
{
    assert forall|i: int| 0 <= i < 80 implies #[trigger] byte_known(b, n, off + i) by {
        assert(byte_known(a, n, off + i));
        crate::efs::file::lemma_extends_keeps_byte_pub(a, b, n, off + i);
    }
    assert forall|i: int| 0 <= i < 80 implies #[trigger] file_byte(b, n, off + i) == file_byte(a, n, off + i) by {
        assert(byte_known(a, n, off + i));
        crate::efs::file::lemma_extends_keeps_byte_pub(a, b, n, off + i);
    }
    assert(entry_bytes(b, n, off) =~= entry_bytes(a, n, off));
}

/// Whether two byte strings are equal.
pub fn bytes_eq(a: &[u8], b: &[u8]) -> (r: bool)
    ensures
        r == (a@ == b@),
{
    if a.len() != b.len() {
        return false;
    }
    let mut i: usize = 0;
    while i < a.len()
        invariant
            a@.len() == b@.len(),
            i <= a@.len(),
            forall|j: int| 0 <= j < i ==> a@[j] == b@[j],
        decreases a@.len() - i,
    {
        if a[i] != b[i] {
            return false;
        }
        i += 1;
    }
    assert(a@ =~= b@);
    true
}

impl INode {
    /// The entry at byte `offset` of the inode's content; `None` at the
    /// end. Content that ends within an entry is `InvalidData`; a name
    /// longer than 64 bytes is `FileNameTooLong`.
    pub fn read_dirent_at<D: BlockDevice, A: BlockBufferAllocator>(
        &self,
        fs: &mut EfsFileSystem<D, A>,
        offset: u64,
    ) -> (r: Result<Option<RawDirent>, FsError>)
        requires
            self.wf(),
            old(fs).wf(),
        ensures
            fs_same_layout(*old(fs), *final(fs)),
            extends(old(fs).cache.view(), final(fs).cache.view()),
            r is Ok ==> stored_inode(
                final(fs).cache.view(),
                self.blk_no,
                self.blk_offset as int,
                self.raw(final(fs).cache.view()),
            ),
            r matches Ok(Some(d)) ==> ({
                let n = self.raw(final(fs).cache.view());
                &&& read_len(n.size as int, offset as int, 80) == 80
                &&& entry_known(final(fs).cache.view(), n, offset as int)
                &&& d == entry_at(final(fs).cache.view(), n, offset as int)
                &&& d.name_len <= 64
            }),
            r matches Ok(None) ==> read_len(self.raw(final(fs).cache.view()).size as int, offset as int, 80) == 0,
            r matches Err(e) ==> e.kind == FsErrorKind::InvalidArgument || e.kind
                == FsErrorKind::InvalidData || e.kind == FsErrorKind::FileTooLarge || e.kind
                == FsErrorKind::FileNameTooLong || e.kind == FsErrorKind::OutOfMemory || e.kind
                == FsErrorKind::IOError,
            dirent_readable(*old(fs), *self, offset as int) ==> r is Ok,
    {
        let ghost v0 = fs.cache.view();
        let mut buf: Vec<u8> = vec![0u8; DIRENT_BYTES];
        let size = match self.raw_read(fs, offset, buf.as_mut_slice()) {
            Ok(k) => k,
            Err(e) => {
                return Err(e);
            },
        };
        if size == 0 {
            return Ok(None);
        }
        if size != RAW_DIRENT_SIZE {
            return Err(
                FsError::with_fmt_args(FsErrorKind::InvalidData, "there is no enough data to read a directory entry"),
            );
        }
        let d = RawDirent::from_bytes(buf.as_slice());
        proof {
            let v = fs.cache.view();
            let n = self.raw(v);
            assert(buf@ =~= entry_bytes(v, n, offset as int));
            lemma_entry_at(v, n, offset as int, d);
            assert forall|i: int| 0 <= i < 80 implies #[trigger] byte_known(v, n, offset + i) by {}
            if dirent_readable(*old(fs), *self, offset as int) {
                let n0 = self.raw(v0);
                lemma_stored_extends(v0, v, self.blk_no, self.blk_offset as int, n0);
                assert(entry_known(v0, n0, offset as int)) by {
                    assert forall|i: int| 0 <= i < 80 implies #[trigger] byte_known(v0, n0, offset + i) by {
                        lemma_ready_at(v0, n0, offset as int, 80, offset + i);
                    }
                }
                lemma_entry_extends(v0, v, n0, offset as int);
            }
        }
        if d.name_len as usize > FILE_NAME_LEN {
            return Err(FsError::from(FsErrorKind::FileNameTooLong));
        }
        Ok(Some(d))
    }

    /// The entry named `name`, if the directory has one. Not a directory is
    /// `NotADirectory`.
    pub fn lookup<D: BlockDevice, A: BlockBufferAllocator>(
        &self,
        fs: &mut EfsFileSystem<D, A>,
        name: ValidLookupName,
    ) -> (r: Result<Option<RawDirent>, FsError>)
        requires
            self.wf(),
            old(fs).wf(),
        ensures
            fs_same_layout(*old(fs), *final(fs)),
            extends(old(fs).cache.view(), final(fs).cache.view()),
            r is Ok ==> stored_inode(
                final(fs).cache.view(),
                self.blk_no,
                self.blk_offset as int,
                self.raw(final(fs).cache.view()),
            ) && spec_file_type(self.raw(final(fs).cache.view())) == FileType::Directory,
            r matches Err(e) ==> e.kind == FsErrorKind::NotADirectory || e.kind
                == FsErrorKind::InvalidArgument || e.kind == FsErrorKind::InvalidData || e.kind
                == FsErrorKind::FileTooLarge || e.kind == FsErrorKind::FileNameTooLong || e.kind
                == FsErrorKind::OutOfMemory || e.kind == FsErrorKind::IOError,
            r matches Err(e) && e.kind == FsErrorKind::NotADirectory ==> spec_file_type(
                self.raw(final(fs).cache.view()),
            ) != FileType::Directory,
            r matches Ok(Some(d)) ==> d.inode_no != 0 && dirent_name(d) == name.spec_str().spec_bytes()
                && exists|o: int|
                0 <= o && o % 80 == 0 && o + 80 <= content_end(self.raw(final(fs).cache.view())) && entry_known(
                    final(fs).cache.view(),
                    self.raw(final(fs).cache.view()),
                    o,
                ) && #[trigger] entry_at(final(fs).cache.view(), self.raw(final(fs).cache.view()), o) == d,
            r matches Ok(None) ==> forall|o: int|
                0 <= o && o % 80 == 0 && o + 80 <= content_end(self.raw(final(fs).cache.view()))
                    ==> #[trigger] entry_known(final(fs).cache.view(), self.raw(final(fs).cache.view()), o),
            r matches Ok(None) ==> forall|o: int|
                0 <= o && o % 80 == 0 && o + 80 <= content_end(self.raw(final(fs).cache.view()))
                    ==> #[trigger] entry_misses(
                    final(fs).cache.view(),
                    self.raw(final(fs).cache.view()),
                    o,
                    name.spec_str().spec_bytes(),
                ),
            stored_inode(old(fs).cache.view(), self.blk_no, self.blk_offset as int, self.raw(old(fs).cache.view()))
                && spec_file_type(self.raw(old(fs).cache.view())) == FileType::Directory && all_readable(*old(fs), *self)
                ==> r is Ok,
    {
        let ghost readable = stored_inode(
            fs.cache.view(),
            self.blk_no,
            self.blk_offset as int,
            self.raw(fs.cache.view()),
        ) && spec_file_type(self.raw(fs.cache.view())) == FileType::Directory && all_readable(*fs, *self);
        let ghost vs = fs.cache.view();
        match self.file_type(fs) {
            Ok(FileType::Directory) => {},
            Ok(_) => {
                return Err(FsError::from(FsErrorKind::NotADirectory));
            },
            Err(e) => {
                return Err(e);
            },
        }
        let ghost v0 = fs.cache.view();
        let ghost n = self.raw(v0);
        proof {
            if readable {
                lemma_stored_extends(vs, v0, self.blk_no, self.blk_offset as int, self.raw(vs));
            }
        }
        let nb = name.as_str().as_bytes();
        let mut offset: u64 = 0;
        loop
            invariant
                self.wf(),
                fs_same_layout(*old(fs), *fs),
                extends(old(fs).cache.view(), fs.cache.view()),
                stored_inode(fs.cache.view(), self.blk_no, self.blk_offset as int, n),
                self.raw(fs.cache.view()) == n,
                spec_file_type(n) == FileType::Directory,
                nb@ == name.spec_str().spec_bytes(),
                offset % 80 == 0,
                offset <= MAX_FILE_SIZE,
                forall|o: int| 0 <= o < offset && o % 80 == 0 ==> #[trigger] entry_known(fs.cache.view(), n, o),
                forall|o: int|
                    0 <= o < offset && o % 80 == 0 ==> #[trigger] entry_misses(fs.cache.view(), n, o, nb@),
                readable == (stored_inode(old(fs).cache.view(), self.blk_no, self.blk_offset as int, self.raw(
                    old(fs).cache.view(),
                )) && spec_file_type(self.raw(old(fs).cache.view())) == FileType::Directory && all_readable(
                    *old(fs),
                    *self,
                )),
                readable ==> n == self.raw(old(fs).cache.view()) && offset <= n.size,
            decreases MAX_FILE_SIZE - offset,
        {
            let ghost vb = fs.cache.view();
            proof {
                if readable {
                    assert(dirent_readable(*old(fs), *self, offset as int));
                    lemma_readable_extends(*old(fs), *fs, *self, offset as int);
                }
            }
            let d = match self.read_dirent_at(fs, offset) {
                Ok(Some(d)) => d,
                Ok(None) => {
                    proof {
                        lemma_stored_extends(vb, fs.cache.view(), self.blk_no, self.blk_offset as int, n);
                        assert forall|o: int|
                            0 <= o && o % 80 == 0 && o + 80 <= content_end(n) implies #[trigger] entry_known(fs.cache.view(), n, o)
                                && entry_misses(fs.cache.view(), n, o, nb@) by {
                            assert(o < offset);
                            assert(entry_misses(vb, n, o, nb@));
                            assert(entry_known(vb, n, o));
                            lemma_entry_extends(vb, fs.cache.view(), n, o);
                        }
                        assert forall|o: int|
                            0 <= o && o % 80 == 0 && o + 80 <= content_end(n) implies #[trigger] entry_misses(fs.cache.view(), n, o, nb@) by {
                            assert(entry_known(fs.cache.view(), n, o));
                        }
                    }
                    return Ok(None);
                },
                Err(e) => {
                    return Err(e);
                },
            };
            let ghost va = fs.cache.view();
            proof {
                lemma_stored_extends(vb, va, self.blk_no, self.blk_offset as int, n);
            }
            if d.is_unused() || !bytes_eq(nb, d.name()) {
                proof {
                    assert forall|o: int|
                        0 <= o < offset + 80 && o % 80 == 0 implies #[trigger] entry_known(va, n, o)
                            && entry_misses(va, n, o, nb@) by {
                        if o < offset {
                            assert(entry_misses(vb, n, o, nb@));
                            assert(entry_known(vb, n, o));
                            lemma_entry_extends(vb, va, n, o);
                        } else {
                            assert(o == offset);
                        }
                    }
                    assert forall|o: int|
                        0 <= o < offset + 80 && o % 80 == 0 implies #[trigger] entry_misses(va, n, o, nb@) by {
                        assert(entry_known(va, n, o));
                    }
                }
                offset = offset + RAW_DIRENT_SIZE;
            } else {
                return Ok(Some(d));
            }
        }
    }

    /// Whether the directory holds nothing but `.` and `..` (the first two
    /// entries). Not a directory is `NotADirectory`.
    #[verifier::rlimit(30)]
    pub fn is_empty_dir<D: BlockDevice, A: BlockBufferAllocator>(
        &self,
        fs: &mut EfsFileSystem<D, A>,
    ) -> (r: Result<bool, FsError>)
        requires
            self.wf(),
            old(fs).wf(),
        ensures
            fs_same_layout(*old(fs), *final(fs)),
            extends(old(fs).cache.view(), final(fs).cache.view()),
            r is Ok ==> stored_inode(
                final(fs).cache.view(),
                self.blk_no,
                self.blk_offset as int,
                self.raw(final(fs).cache.view()),
            ) && spec_file_type(self.raw(final(fs).cache.view())) == FileType::Directory,
            r matches Err(e) && e.kind == FsErrorKind::NotADirectory ==> spec_file_type(
                self.raw(final(fs).cache.view()),
            ) != FileType::Directory,
            r matches Ok(false) ==> exists|o: int|
                160 <= o && o % 80 == 0 && entry_known(final(fs).cache.view(), self.raw(final(fs).cache.view()), o)
                    && #[trigger] entry_at(final(fs).cache.view(), self.raw(final(fs).cache.view()), o).inode_no != 0,
            r matches Ok(true) ==> forall|o: int|
                160 <= o && o % 80 == 0 && o + 80 <= content_end(self.raw(final(fs).cache.view()))
                    ==> #[trigger] entry_known(final(fs).cache.view(), self.raw(final(fs).cache.view()), o),
            r matches Ok(true) ==> forall|o: int|
                160 <= o && o % 80 == 0 && o + 80 <= content_end(self.raw(final(fs).cache.view()))
                    ==> #[trigger] entry_at(final(fs).cache.view(), self.raw(final(fs).cache.view()), o).inode_no == 0,
            spec_file_type(self.raw(old(fs).cache.view())) == FileType::Directory && self.raw(
                old(fs).cache.view(),
            ).size >= 160 && all_readable(*old(fs), *self) ==> r is Ok,
    {
        let ghost fs0 = *fs;
        let ghost ok = spec_file_type(self.raw(fs.cache.view())) == FileType::Directory && self.raw(
            fs.cache.view(),
        ).size >= 160 && all_readable(*fs, *self);
        proof {
            if ok {
                assert(dirent_readable(fs0, *self, 0));
            }
        }
        match self.file_type(fs) {
            Ok(FileType::Directory) => {},
            Ok(_) => {
                return Err(FsError::from(FsErrorKind::NotADirectory));
            },
            Err(e) => {
                return Err(e);
            },
        }
        let ghost v0 = fs.cache.view();
        let ghost n = self.raw(v0);
        proof {
            if ok {
                lemma_stored_extends(fs0.cache.view(), v0, self.blk_no, self.blk_offset as int, self.raw(fs0.cache.view()));
            }
        }
        let mut offset: u64 = RAW_DIRENT_SIZE * 2;
        loop
            invariant
                self.wf(),
                fs0 == *old(fs),
                ok == (spec_file_type(self.raw(old(fs).cache.view())) == FileType::Directory && self.raw(
                    old(fs).cache.view(),
                ).size >= 160 && all_readable(*old(fs), *self)),
                ok ==> n == self.raw(old(fs).cache.view()) && offset <= n.size,
                fs_same_layout(*old(fs), *fs),
                extends(old(fs).cache.view(), fs.cache.view()),
                stored_inode(fs.cache.view(), self.blk_no, self.blk_offset as int, n),
                self.raw(fs.cache.view()) == n,
                spec_file_type(n) == FileType::Directory,
                offset % 80 == 0,
                160 <= offset,
                offset <= MAX_FILE_SIZE,
                forall|o: int| 160 <= o < offset && o % 80 == 0 ==> #[trigger] entry_known(fs.cache.view(), n, o),
                forall|o: int|
                    160 <= o < offset && o % 80 == 0 ==> #[trigger] entry_at(fs.cache.view(), n, o).inode_no == 0,
            decreases MAX_FILE_SIZE - offset,
        {
            let ghost vb = fs.cache.view();
            proof {
                if ok {
                    assert(dirent_readable(fs0, *self, offset as int));
                    lemma_readable_extends(fs0, *fs, *self, offset as int);
                }
            }
            let d = match self.read_dirent_at(fs, offset) {
                Ok(Some(d)) => d,
                Ok(None) => {
                    proof {
                        lemma_stored_extends(vb, fs.cache.view(), self.blk_no, self.blk_offset as int, n);
                        assert forall|o: int|
                            160 <= o && o % 80 == 0 && o + 80 <= content_end(n) implies #[trigger] entry_known(fs.cache.view(), n, o)
                                && entry_at(fs.cache.view(), n, o).inode_no == 0 by {
                            assert(o < offset);
                            assert(entry_at(vb, n, o).inode_no == 0);
                            assert(entry_known(vb, n, o));
                            lemma_entry_extends(vb, fs.cache.view(), n, o);
                        }
                        assert forall|o: int|
                            160 <= o && o % 80 == 0 && o + 80 <= content_end(n) implies #[trigger] entry_at(fs.cache.view(), n, o).inode_no == 0 by {
                            assert(entry_known(fs.cache.view(), n, o));
                        }
                    }
                    return Ok(true);
                },
                Err(e) => {
                    return Err(e);
                },
            };
            let ghost va = fs.cache.view();
            proof {
                lemma_stored_extends(vb, va, self.blk_no, self.blk_offset as int, n);
            }
            if !d.is_unused() {
                assert(entry_at(va, n, offset as int).inode_no != 0);
                return Ok(false);
            }
            proof {
                assert forall|o: int|
                    160 <= o < offset + 80 && o % 80 == 0 implies #[trigger] entry_known(va, n, o)
                        && entry_at(va, n, o).inode_no == 0 by {
                    if o < offset {
                        assert(entry_at(vb, n, o).inode_no == 0);
                        assert(entry_known(vb, n, o));
                        lemma_entry_extends(vb, va, n, o);
                    } else {
                        assert(o == offset);
                    }
                }
                assert forall|o: int|
                    160 <= o < offset + 80 && o % 80 == 0 implies #[trigger] entry_at(va, n, o).inode_no == 0 by {
                    assert(entry_known(va, n, o));
                }
            }
            offset = offset + RAW_DIRENT_SIZE;
        }
    }

    /// Writes entry `dirent` at byte `offset` of the content. When fewer
    /// than 80 bytes go in, the part written is cut off again and the
    /// write is `InvalidData`.
    pub fn write_dirent_at<D: BlockDevice, A: BlockBufferAllocator>(
        &self,
        fs: &mut EfsFileSystem<D, A>,
        offset: u64,
        dirent: &RawDirent,
    ) -> (r: Result<(), FsError>)
        requires
            self.wf(),
            old(fs).wf(),
        ensures
            fs_same_layout(*old(fs), *final(fs)),
            r is Ok ==> self.raw(final(fs).cache.view()).size >= offset + 80 && offset + 80 <= MAX_FILE_SIZE,
            r matches Err(e) ==> e.kind == FsErrorKind::InvalidArgument || e.kind
                == FsErrorKind::InvalidData || e.kind == FsErrorKind::FileTooLarge || e.kind
                == FsErrorKind::NoSpaceLeft || e.kind == FsErrorKind::OutOfMemory || e.kind
                == FsErrorKind::IOError,
            write_fits(*old(fs), *self, offset as int, 80) ==> (r is Ok ==> stored_inode(
                final(fs).cache.view(),
                self.blk_no,
                self.blk_offset as int,
                self.raw(final(fs).cache.view()),
            ) && self.raw(final(fs).cache.view()).size == (if offset + 80 > self.raw(old(fs).cache.view()).size {
                offset + 80
            } else {
                self.raw(old(fs).cache.view()).size as int
            }) && entry_placed(
                final(fs).cache.view(),
                self.raw(final(fs).cache.view()),
                offset as int,
            ) && entry_at(final(fs).cache.view(), self.raw(final(fs).cache.view()), offset as int) == *dirent
                && write_ready(*final(fs), self.raw(final(fs).cache.view()), offset as int, 80) && others_kept(
                old(fs).cache.view(),
                final(fs).cache.view(),
                old(fs).data_bitmap.start_blk_no,
                *self,
            ) && others_untouched(
                old(fs).cache.view(),
                final(fs).cache.view(),
                self.raw(old(fs).cache.view()),
                old(fs).data_bitmap.start_blk_no,
                old(fs).data_start(),
                old(fs).superblock.data_blocks as int,
                offset as int / 4096,
                write_hi(offset as int, 80),
            ) && kept_outside(
                old(fs).cache.view(),
                final(fs).cache.view(),
                self.raw(old(fs).cache.view()),
                self.raw(final(fs).cache.view()),
                offset as int,
                80,
                offset as int / 4096,
                write_hi(offset as int, 80),
            ) && ptrs_kept(
                old(fs).cache.view(),
                self.raw(old(fs).cache.view()),
                final(fs).cache.view(),
                self.raw(final(fs).cache.view()),
                offset as int / 4096,
                write_hi(offset as int, 80),
            ) && same_meta(self.raw(old(fs).cache.view()), self.raw(final(fs).cache.view())) && marks_kept(
                old(fs).cache.view(),
                final(fs).cache.view(),
                old(fs).data_bitmap.start_blk_no,
                old(fs).data_start(),
                old(fs).superblock.data_blocks as int,
            ) && fresh_blocks(
                old(fs).cache.view(),
                self.raw(old(fs).cache.view()),
                final(fs).cache.view(),
                self.raw(final(fs).cache.view()),
                old(fs).data_bitmap.start_blk_no,
                old(fs).data_start(),
                old(fs).superblock.data_blocks as int,
                offset as int / 4096,
                write_hi(offset as int, 80),
            )),
            write_fits(*old(fs), *self, offset as int, 80) && offset + 80 <= MAX_FILE_SIZE && offset <= self.raw(
                old(fs).cache.view(),
            ).size && spec_file_type(self.raw(old(fs).cache.view())) != FileType::Unknown && spec_file_type(
                self.raw(old(fs).cache.view()),
            ) != FileType::Device && blocks_in_place(
                old(fs).cache.view(),
                self.raw(old(fs).cache.view()),
                offset as int / 4096,
                write_hi(offset as int, 80),
            ) ==> r is Ok,
    {
        let bytes = dirent.to_bytes();
        let size = match self.raw_write(fs, offset, bytes.as_slice()) {
            Ok(k) => k,
            Err(e) => {
                return Err(e);
            },
        };
        proof {
            let v = fs.cache.view();
            let n = self.raw(v);
            if size == RAW_DIRENT_SIZE && holds_prefix(v, n, offset as int, bytes@, 80) {
                assert forall|i: int| 0 <= i < 80 implies #[trigger] byte_known(v, n, offset + i) && file_byte(
                    v,
                    n,
                    offset + i,
                ) == bytes@[i] by {
                    assert(file_byte(v, n, offset + i) == bytes@[(offset + i) - offset]);
                }
                assert(entry_bytes(v, n, offset as int) =~= bytes@);
                lemma_entry_at(v, n, offset as int, *dirent);
                assert(entry_placed(v, n, offset as int));
            }
        }
        if size != RAW_DIRENT_SIZE {
            let cur = match self.size(fs) {
                Ok(s) => s,
                Err(e) => {
                    return Err(e);
                },
            };
            if cur >= size {
                match self.raw_truncate(fs, cur - size) {
                    Ok(()) => {},
                    Err(e) => {
                        return Err(e);
                    },
                }
            }
            return Err(FsError::with_fmt_args(FsErrorKind::InvalidData, "writing a dirent is failure"));
        }
        Ok(())
    }

    /// Adds entry `new_dirent`: into the last free slot found, else at the
    /// end. Not a directory is `NotADirectory`; a used entry with the same
    /// name is `AlreadyExists`.
    pub fn add_entry<D: BlockDevice, A: BlockBufferAllocator>(
        &self,
        fs: &mut EfsFileSystem<D, A>,
        new_dirent: &RawDirent,
    ) -> (r: Result<(), FsError>)
        requires
            self.wf(),
            old(fs).wf(),
            new_dirent.name_len <= 64,
        ensures
            fs_same_layout(*old(fs), *final(fs)),
            r matches Err(e) && e.kind == FsErrorKind::NotADirectory ==> spec_file_type(
                self.raw(final(fs).cache.view()),
            ) != FileType::Directory,
            r matches Err(e) && e.kind == FsErrorKind::AlreadyExists ==> exists|o: int|
                0 <= o && o % 80 == 0 && entry_known(final(fs).cache.view(), self.raw(final(fs).cache.view()), o)
                    && #[trigger] entry_at(final(fs).cache.view(), self.raw(final(fs).cache.view()), o).inode_no != 0
                    && dirent_name(entry_at(final(fs).cache.view(), self.raw(final(fs).cache.view()), o))
                    == dirent_name(*new_dirent),
            dir_fits(*old(fs), *self) ==> (r is Ok ==> stored_inode(
                final(fs).cache.view(),
                self.blk_no,
                self.blk_offset as int,
                self.raw(final(fs).cache.view()),
            ) && (exists|o: int|
                0 <= o && o % 80 == 0 && o + 80 <= content_end(self.raw(final(fs).cache.view())) && entry_placed(
                    final(fs).cache.view(),
                    self.raw(final(fs).cache.view()),
                    o,
                ) && #[trigger] entry_at(final(fs).cache.view(), self.raw(final(fs).cache.view()), o) == *new_dirent
                    && write_ready(*final(fs), self.raw(final(fs).cache.view()), o, 80) && fresh_blocks(
                    old(fs).cache.view(),
                    self.raw(old(fs).cache.view()),
                    final(fs).cache.view(),
                    self.raw(final(fs).cache.view()),
                    old(fs).data_bitmap.start_blk_no,
                    old(fs).data_start(),
                    old(fs).superblock.data_blocks as int,
                    o / 4096,
                    write_hi(o, 80),
                ) && kept_outside(
                    old(fs).cache.view(),
                    final(fs).cache.view(),
                    self.raw(old(fs).cache.view()),
                    self.raw(final(fs).cache.view()),
                    o,
                    80,
                    o / 4096,
                    write_hi(o, 80),
                ) && ptrs_kept(
                    old(fs).cache.view(),
                    self.raw(old(fs).cache.view()),
                    final(fs).cache.view(),
                    self.raw(final(fs).cache.view()),
                    o / 4096,
                    write_hi(o, 80),
                ) && (o >= self.raw(old(fs).cache.view()).size || (entry_known(
                    old(fs).cache.view(),
                    self.raw(old(fs).cache.view()),
                    o,
                ) ==> entry_at(old(fs).cache.view(), self.raw(old(fs).cache.view()), o).inode_no == 0))) && others_kept(
                old(fs).cache.view(),
                final(fs).cache.view(),
                old(fs).data_bitmap.start_blk_no,
                *self,
            ) && same_meta(self.raw(old(fs).cache.view()), self.raw(final(fs).cache.view()))
                && self.raw(final(fs).cache.view()).size <= self.raw(old(fs).cache.view()).size + 80 && marks_kept(
                old(fs).cache.view(),
                final(fs).cache.view(),
                old(fs).data_bitmap.start_blk_no,
                old(fs).data_start(),
                old(fs).superblock.data_blocks as int,
            ) && others_untouched(
                old(fs).cache.view(),
                final(fs).cache.view(),
                self.raw(old(fs).cache.view()),
                old(fs).data_bitmap.start_blk_no,
                old(fs).data_start(),
                old(fs).superblock.data_blocks as int,
                0,
                write_hi(0, self.raw(old(fs).cache.view()).size + 80),
            )),
            entry_room(*old(fs), *self, dirent_name(*new_dirent)) ==> r is Ok,
    {
        let ghost v0 = fs.cache.view();
        let ghost n0 = self.raw(v0);
        let ghost ready = dir_fits(*fs, *self);
        let ghost room = entry_room(*fs, *self, dirent_name(*new_dirent));
        match self.file_type(fs) {
            Ok(FileType::Directory) => {},
            Ok(_) => {
                return Err(FsError::from(FsErrorKind::NotADirectory));
            },
            Err(e) => {
                return Err(e);
            },
        }
        let ghost n = self.raw(fs.cache.view());
        proof {
            if ready {
                lemma_stored_extends(v0, fs.cache.view(), self.blk_no, self.blk_offset as int, n0);
            }
        }
        let name = new_dirent.name();
        let mut offset: u64 = 0;
        let mut empty_dirent_offset: Option<u64> = None;
        loop
            invariant
                self.wf(),
                fs_same_layout(*old(fs), *fs),
                stored_inode(fs.cache.view(), self.blk_no, self.blk_offset as int, n),
                self.raw(fs.cache.view()) == n,
                name@ == dirent_name(*new_dirent),
                offset % 80 == 0,
                offset <= MAX_FILE_SIZE,
                extends(old(fs).cache.view(), fs.cache.view()),
                ready ==> n == self.raw(old(fs).cache.view()),
                room == entry_room(*old(fs), *self, dirent_name(*new_dirent)),
                room ==> ready,
                offset <= n.size,
                empty_dirent_offset matches Some(o) ==> o % 80 == 0 && o + 80 <= n.size && o <= MAX_FILE_SIZE
                    && entry_known(fs.cache.view(), n, o as int) && entry_at(fs.cache.view(), n, o as int).inode_no == 0,
            ensures
                read_len(n.size as int, offset as int, 80) == 0,
            decreases MAX_FILE_SIZE - offset,
        {
            let ghost vb = fs.cache.view();
            proof {
                if room {
                    assert(dirent_readable(*old(fs), *self, offset as int));
                    lemma_readable_extends(*old(fs), *fs, *self, offset as int);
                }
            }
            let d = match self.read_dirent_at(fs, offset) {
                Ok(Some(d)) => d,
                Ok(None) => {
                    proof {
                        lemma_stored_extends(vb, fs.cache.view(), self.blk_no, self.blk_offset as int, n);
                        if let Some(o) = empty_dirent_offset {
                            lemma_entry_extends(vb, fs.cache.view(), n, o as int);
                        }
                    }
                    break;
                },
                Err(e) => {
                    return Err(e);
                },
            };
            proof {
                lemma_stored_extends(vb, fs.cache.view(), self.blk_no, self.blk_offset as int, n);
                if let Some(o) = empty_dirent_offset {
                    lemma_entry_extends(vb, fs.cache.view(), n, o as int);
                }
            }
            if d.is_unused() {
                empty_dirent_offset = Some(offset);
            } else if bytes_eq(name, d.name()) {
                assert(entry_at(fs.cache.view(), n, offset as int).inode_no != 0);
                proof {
                    if room {
                        let a = *old(fs);
                        lemma_readable_extends(a, *fs, *self, offset as int);
                        assert(entry_at(a.cache.view(), n, offset as int) == d);
                    }
                }
                return Err(FsError::from(FsErrorKind::AlreadyExists));
            }
            offset = offset + RAW_DIRENT_SIZE;
        }
        let write_offset = match empty_dirent_offset {
            Some(o) => o,
            None => offset,
        };
        proof {
            if ready {
                let hi0 = write_hi(0, n.size + 80);
                lemma_sound_frame(
                    v0,
                    fs.cache.view(),
                    n,
                    fs.data_bitmap.start_blk_no,
                    fs.data_start(),
                    fs.superblock.data_blocks as int,
                    0,
                    hi0,
                    None,
                );
                lemma_write_hi_mono(write_offset as int, 80, n.size + 80);
                lemma_sound_sub(
                    fs.cache.view(),
                    n,
                    fs.data_bitmap.start_blk_no,
                    fs.data_start(),
                    fs.superblock.data_blocks as int,
                    0,
                    hi0,
                    write_offset as int / 4096,
                    write_hi(write_offset as int, 80),
                );
            }
        }
        proof {
            if room {
                let hi0 = write_hi(0, n.size + 80);
                let ve1 = fs.cache.view();
                assert forall|j: int| write_offset as int / 4096 <= j < write_hi(write_offset as int, 80) implies #[trigger] file_blk(
                    ve1,
                    n,
                    j,
                ) != 0 && ve1.dom().contains(file_blk(ve1, n, j)) by {
                    assert(file_blk(old(fs).cache.view(), n, j) != 0);
                    assert(file_blk(ve1, n, j) == file_blk(old(fs).cache.view(), n, j));
                }
            }
        }
        let ghost ve = fs.cache.view();
        let r = self.write_dirent_at(fs, write_offset, new_dirent);
        proof {
            if ready && r is Ok {
                assert(entry_at(fs.cache.view(), self.raw(fs.cache.view()), write_offset as int) == *new_dirent);
                let start = fs.data_bitmap.start_blk_no;
                assert forall|cb: u64, co: int, m: RawINode|
                    cb < start && 0 <= co && co + 132 <= 4096 && records_apart(cb, co, self.blk_no, self.blk_offset as int)
                        && stored_inode(v0, cb, co, m) implies #[trigger] stored_inode(fs.cache.view(), cb, co, m) by {
                    lemma_stored_extends(v0, ve, cb, co, m);
                }
                let ds = fs.data_start();
                let nblks = fs.superblock.data_blocks as int;
                let hi0 = write_hi(0, n.size + 80);
                let lo_w = write_offset as int / 4096;
                let hi_w = write_hi(write_offset as int, 80);
                lemma_sound_sub(v0, n, start, ds, nblks, 0, hi0, lo_w, hi_w);
                lemma_untouched_frame(v0, ve, fs.cache.view(), fs.cache.view(), n, start, ds, nblks, lo_w, hi_w, None);
                lemma_untouched_widen(v0, fs.cache.view(), n, start, ds, nblks, lo_w, hi_w, 0, hi0);
                lemma_fresh_frame(
                    v0,
                    ve,
                    n,
                    fs.cache.view(),
                    self.raw(fs.cache.view()),
                    fs.cache.view(),
                    start,
                    ds,
                    nblks,
                    lo_w,
                    hi_w,
                    None,
                );
                lemma_kept_extends(v0, ve, fs.cache.view(), n, self.raw(fs.cache.view()), write_offset as int, 80, lo_w, hi_w);
                assert forall|j: int| lo_w <= j < hi_w && file_blk(v0, n, j) != 0 implies #[trigger] file_blk(
                    fs.cache.view(),
                    self.raw(fs.cache.view()),
                    j,
                ) == file_blk(v0, n, j) by {
                    assert(file_blk(ve, n, j) == file_blk(v0, n, j));
                }
                if let Some(o) = empty_dirent_offset {
                    if entry_known(v0, n, o as int) {
                        lemma_entry_extends(v0, ve, n, o as int);
                    }
                }
            }
        }
        r
    }

    /// Frees the used entry named `name` and gives the inode it named, or
    /// `None` when there is none; a freed last entry is cut off the
    /// directory. Not a directory is `NotADirectory`.
    pub fn remove_entry<D: BlockDevice, A: BlockBufferAllocator>(
        &self,
        fs: &mut EfsFileSystem<D, A>,
        name: &[u8],
    ) -> (r: Result<Option<u64>, FsError>)
        requires
            self.wf(),
            old(fs).wf(),
        ensures
            fs_same_layout(*old(fs), *final(fs)),
            r matches Ok(Some(ino)) ==> ino != 0,
            r matches Ok(None) ==> extends(old(fs).cache.view(), final(fs).cache.view()),
            removal_room(*old(fs), *self, name@) ==> r is Ok,
            removal_room(*old(fs), *self, name@) ==> (r matches Ok(Some(ino)) ==> exists|o: int|
                0 <= o && o % 80 == 0 && o + 80 <= self.raw(old(fs).cache.view()).size && !#[trigger] entry_misses(
                    old(fs).cache.view(),
                    self.raw(old(fs).cache.view()),
                    o,
                    name@,
                ) && entry_at(old(fs).cache.view(), self.raw(old(fs).cache.view()), o).inode_no == ino),
            r matches Ok(None) ==> forall|o: int|
                0 <= o && o % 80 == 0 && o + 80 <= content_end(self.raw(final(fs).cache.view()))
                    ==> #[trigger] entry_misses(final(fs).cache.view(), self.raw(final(fs).cache.view()), o, name@),
            r matches Err(e) && e.kind == FsErrorKind::NotADirectory ==> spec_file_type(
                self.raw(final(fs).cache.view()),
            ) != FileType::Directory,
            dir_fits(*old(fs), *self) ==> (r matches Ok(Some(ino)) ==> stored_inode(
                final(fs).cache.view(),
                self.blk_no,
                self.blk_offset as int,
                self.raw(final(fs).cache.view()),
            ) && others_kept(
                old(fs).cache.view(),
                final(fs).cache.view(),
                old(fs).data_bitmap.start_blk_no,
                *self,
            ) && entry_removed(
                old(fs).cache.view(),
                final(fs).cache.view(),
                self.raw(old(fs).cache.view()),
                self.raw(final(fs).cache.view()),
                ino,
                name@,
                old(fs).data_bitmap.start_blk_no,
                old(fs).data_start(),
                old(fs).superblock.data_blocks as int,
            )),
            dir_fits(*old(fs), *self) ==> (r matches Ok(Some(ino)) ==> same_meta(
                self.raw(old(fs).cache.view()),
                self.raw(final(fs).cache.view()),
            )),
    {
        let ghost v0 = fs.cache.view();
        let ghost ready = dir_fits(*fs, *self);
        let ghost room = removal_room(*fs, *self, name@);
        let inode = match self.read_raw_inode(fs) {
            Ok(n) => n,
            Err(e) => {
                return Err(e);
            },
        };
        proof {
            if ready {
                lemma_stored_extends(v0, fs.cache.view(), self.blk_no, self.blk_offset as int, self.raw(v0));
            }
        }
        if inode.file_type() != FileType::Directory {
            return Err(FsError::from(FsErrorKind::NotADirectory));
        }
        let ghost n = inode;
        let sz = inode.size();
        let mut offset: u64 = 0;
        loop
            invariant
                self.wf(),
                room == removal_room(*old(fs), *self, name@),
                room ==> ready && offset <= n.size,
                fs_same_layout(*old(fs), *fs),
                stored_inode(fs.cache.view(), self.blk_no, self.blk_offset as int, n),
                self.raw(fs.cache.view()) == n,
                sz == n.size,
                offset % 80 == 0,
                offset <= MAX_FILE_SIZE,
                forall|o: int| 0 <= o < offset && o % 80 == 0 ==> #[trigger] entry_known(fs.cache.view(), n, o),
                forall|o: int|
                    0 <= o < offset && o % 80 == 0 ==> #[trigger] entry_misses(fs.cache.view(), n, o, name@),
                extends(old(fs).cache.view(), fs.cache.view()),
                v0 == old(fs).cache.view(),
                ready == dir_fits(*old(fs), *self),
                ready ==> n == self.raw(old(fs).cache.view()),
            decreases MAX_FILE_SIZE - offset,
        {
            let ghost vb = fs.cache.view();
            proof {
                if room {
                    assert(dirent_readable(*old(fs), *self, offset as int));
                    lemma_readable_extends(*old(fs), *fs, *self, offset as int);
                }
            }
            let mut d = match self.read_dirent_at(fs, offset) {
                Ok(Some(d)) => d,
                Ok(None) => {
                    proof {
                        assert(extends(v0, fs.cache.view())) by {
                            assert forall|k: u64| #[trigger] v0.dom().contains(k) implies fs.cache.view().dom().contains(k)
                                && fs.cache.view()[k] == v0[k] by {
                                assert(vb.dom().contains(k));
                            }
                        }
                        lemma_stored_extends(vb, fs.cache.view(), self.blk_no, self.blk_offset as int, n);
                        assert forall|o: int|
                            0 <= o && o % 80 == 0 && o + 80 <= content_end(n) implies #[trigger] entry_misses(fs.cache.view(), n, o, name@) by {
                            assert(entry_misses(vb, n, o, name@));
                            assert(entry_known(vb, n, o));
                            lemma_entry_extends(vb, fs.cache.view(), n, o);
                        }
                    }
                    return Ok(None);
                },
                Err(e) => {
                    return Err(e);
                },
            };
            let ghost va = fs.cache.view();
            proof {
                lemma_stored_extends(vb, va, self.blk_no, self.blk_offset as int, n);
                assert(extends(v0, va)) by {
                    assert forall|k: u64| #[trigger] v0.dom().contains(k) implies va.dom().contains(k) && va[k]
                        == v0[k] by {
                        assert(vb.dom().contains(k));
                    }
                }
                if room {
                    lemma_readable_extends(*old(fs), *fs, *self, offset as int);
                    assert(d == entry_at(v0, n, offset as int));
                    assert(offset + 80 <= n.size);
                }
            }
            if !d.is_unused() && bytes_eq(name, d.name()) {
                let old_ino = d.inode_no;
                let ghost d0 = d;
                d.inode_no = INVALID_INODE_NO;
                let ghost fs_a = *fs;
                proof {
                    if ready {
                        let hi0 = write_hi(0, n.size + 80);
                        lemma_sound_frame(
                            v0,
                            va,
                            n,
                            fs.data_bitmap.start_blk_no,
                            fs.data_start(),
                            fs.superblock.data_blocks as int,
                            0,
                            hi0,
                            None,
                        );
                        lemma_write_hi_mono(offset as int, 80, n.size + 80);
                        lemma_sound_sub(
                            va,
                            n,
                            fs.data_bitmap.start_blk_no,
                            fs.data_start(),
                            fs.superblock.data_blocks as int,
                            0,
                            hi0,
                            offset as int / 4096,
                            write_hi(offset as int, 80),
                        );
                    }
                    if ready {
                        assert(write_fits(fs_a, *self, offset as int, 80));
                    }
                    if room {
                        assert(dirent_readable(fs_a, *self, offset as int));
                        assert(bytes_ready(va, n, offset as int, 80));
                        lemma_entry_in_place(va, n, offset as int);
                        assert(write_fits(fs_a, *self, offset as int, 80));
                        assert(offset != sz - 80);
                    }
                }
                match self.write_dirent_at(fs, offset, &d) {
                    Ok(()) => {},
                    Err(e) => {
                        return Err(e);
                    },
                }
                let ghost fs_w = *fs;
                let ghost vw = fs.cache.view();
                if sz >= RAW_DIRENT_SIZE && offset == sz - RAW_DIRENT_SIZE {
                    proof {
                        if ready {
                            let nw = self.raw(vw);
                            assert(nw.size == sz);
                            lemma_blocks_of_entry(offset as int);
                            lemma_sound_placed(
                                vw,
                                nw,
                                fs.data_bitmap.start_blk_no,
                                fs.data_start(),
                                fs.superblock.data_blocks as int,
                                offset as int / 4096,
                                write_hi(offset as int, 80),
                                blocks_of(offset as int),
                                blocks_of(nw.size as int),
                            );
                        }
                    }
                    match self.raw_truncate(fs, offset) {
                        Ok(()) => {},
                        Err(e) => {
                            return Err(e);
                        },
                    }
                }
                proof {
                    if ready {
                        let cut = sz >= RAW_DIRENT_SIZE && offset == sz - RAW_DIRENT_SIZE;
                        assert(d0 == entry_at(va, n, offset as int));
                        lemma_remove_done(
                            v0,
                            va,
                            vw,
                            fs.cache.view(),
                            *self,
                            n,
                            offset as int,
                            old_ino,
                            name@,
                            fs.data_bitmap.start_blk_no,
                            fs.data_start(),
                            fs.superblock.data_blocks as int,
                            cut,
                        );
                    }
                }
                proof {
                    if room {
                        assert(!entry_misses(v0, n, offset as int, name@));
                    }
                }
                return Ok(Some(old_ino));
            }
            proof {
                assert forall|o: int| 0 <= o < offset + 80 && o % 80 == 0 implies #[trigger] entry_known(va, n, o) && entry_misses(va, n, o, name@) by {
                    if o < offset {
                        assert(entry_misses(vb, n, o, name@));
                        assert(entry_known(vb, n, o));
                        lemma_entry_extends(vb, va, n, o);
                    }
                }
                assert forall|o: int| 0 <= o < offset + 80 && o % 80 == 0 implies #[trigger] entry_misses(va, n, o, name@) by {
                    assert(entry_known(va, n, o));
                }
            }
            offset = offset + RAW_DIRENT_SIZE;
        }
    }

    /// Adds an entry named `name` for `child` and counts the link in the
    /// child's record.
    pub fn link<D: BlockDevice, A: BlockBufferAllocator>(
        &self,
        fs: &mut EfsFileSystem<D, A>,
        child: &INode,
        name: &str,
    ) -> (r: Result<(), FsError>)
        requires
            self.wf(),
            child.wf(),
            old(fs).wf(),
            name.spec_bytes().len() <= FILE_NAME_LEN,
        ensures
            fs_same_layout(*old(fs), *final(fs)),
            links_apart(*old(fs), *self, *child) ==> (r is Ok ==> child.raw(final(fs).cache.view()) == (RawINode {
                nlink: (child.raw(old(fs).cache.view()).nlink + 1) as u32,
                ..child.raw(old(fs).cache.view())
            })),
            link_fits(*old(fs), *self, *child) ==> (r is Ok ==> ({
                let v0 = old(fs).cache.view();
                let v = final(fs).cache.view();
                let h0 = self.raw(v0);
                let h = self.raw(v);
                let start = old(fs).data_bitmap.start_blk_no;
                let ds = old(fs).data_start();
                let nblks = old(fs).superblock.data_blocks as int;
                &&& others_untouched(v0, v, h0, start, ds, nblks, 0, write_hi(0, h0.size + 80))
                &&& marks_kept(v0, v, start, ds, nblks)
                &&& forall|cb: u64, co: int, m: RawINode|
                    cb < start && 0 <= co && co + 132 <= 4096 && records_apart(cb, co, self.blk_no, self.blk_offset as int)
                        && records_apart(cb, co, child.blk_no, child.blk_offset as int) && stored_inode(v0, cb, co, m)
                        ==> #[trigger] stored_inode(v, cb, co, m)
                &&& stored_inode(v, self.blk_no, self.blk_offset as int, h)
                &&& stored_inode(v, child.blk_no, child.blk_offset as int, child.raw(v))
                &&& h.size <= h0.size + 80
                &&& h.typ == h0.typ
                &&& h.nlink == if child.blk_no == self.blk_no && child.blk_offset == self.blk_offset {
                    h0.nlink + 1
                } else {
                    h0.nlink as int
                }
                &&& child.raw(v).nlink == child.raw(v0).nlink + 1
                &&& child.raw(v).typ == child.raw(v0).typ
                &&& exists|o: int|
                    0 <= o && o % 80 == 0 && o + 80 <= content_end(h) && o + 80 <= h.size && entry_placed(v, h, o)
                        && #[trigger] entry_at(v, h, o).inode_no == child.ino && entry_at(v, h, o).typ == spec_file_type(
                        child.raw(v0),
                    ) && dirent_name(entry_at(v, h, o)) == name.spec_bytes() && write_ready(*final(fs), h, o, 80)
                        && fresh_blocks(v0, h0, v, h, start, ds, nblks, o / 4096, write_hi(o, 80)) && kept_outside(
                        v0,
                        v,
                        h0,
                        h,
                        o,
                        80,
                        o / 4096,
                        write_hi(o, 80),
                    ) && ptrs_kept(v0, h0, v, h, o / 4096, write_hi(o, 80)) && (o >= h0.size || (entry_known(v0, h0, o)
                        ==> entry_at(v0, h0, o).inode_no == 0))
            })),
            link_fits(*old(fs), *self, *child) && spec_file_type(child.raw(old(fs).cache.view())) != FileType::Unknown
                && child.raw(old(fs).cache.view()).nlink < u32::MAX && entry_room(*old(fs), *self, name.spec_bytes())
                ==> r is Ok,
    {
        let ghost v0 = fs.cache.view();
        let ghost ready = links_apart(*fs, *self, *child);
        let ghost fitted = link_fits(*fs, *self, *child);
        let typ = match child.file_type(fs) {
            Ok(t) => t,
            Err(e) => {
                return Err(e);
            },
        };
        if typ == FileType::Unknown {
            return Err(FsError::from(FsErrorKind::InvalidData));
        }
        let ghost v1 = fs.cache.view();
        proof {
            if fitted {
                lemma_stored_extends(v0, v1, child.blk_no, child.blk_offset as int, child.raw(v0));
                lemma_stored_extends(v0, v1, self.blk_no, self.blk_offset as int, self.raw(v0));
                lemma_sound_frame(
                    v0,
                    v1,
                    self.raw(v0),
                    fs.data_bitmap.start_blk_no,
                    fs.data_start(),
                    fs.superblock.data_blocks as int,
                    0,
                    write_hi(0, self.raw(v0).size + 80),
                    None,
                );
            }
        }
        let dirent = RawDirent::new(child.ino, typ, name);
        proof {
            if fitted && entry_room(*old(fs), *self, name.spec_bytes()) {
                lemma_room_extends(*old(fs), *fs, *self, name.spec_bytes());
            }
        }
        match self.add_entry(fs, &dirent) {
            Ok(()) => {},
            Err(e) => {
                return Err(e);
            },
        }
        let ghost v2 = fs.cache.view();
        let ghost fs2 = *fs;
        proof {
            fs.cache.lemma_view_block_sized();
        }
        proof {
            if fitted {
                if child.blk_no == self.blk_no && child.blk_offset == self.blk_offset {
                    assert(v2.dom().contains(child.blk_no));
                } else {
                    assert(stored_inode(v1, child.blk_no, child.blk_offset as int, child.raw(v0)));
                    assert(stored_inode(v2, child.blk_no, child.blk_offset as int, child.raw(v0)));
                }
            }
        }
        let mut raw = match child.read_raw_inode(fs) {
            Ok(n) => n,
            Err(e) => {
                return Err(e);
            },
        };
        if raw.nlink() == u32::MAX {
            return Err(FsError::from(FsErrorKind::FileSystemCorruption));
        }
        let ghost raw0 = raw;
        let ghost v3 = fs.cache.view();
        proof {
            if fitted {
                assert(v3.dom().contains(child.blk_no));
            }
        }
        raw.increase_link();
        let r = child.write_raw_inode(fs, raw);
        proof {
            if ready && r is Ok {
                assert(stored_inode(v2, child.blk_no, child.blk_offset as int, child.raw(v0)));
                lemma_stored_extends(v2, v3, child.blk_no, child.blk_offset as int, child.raw(v0));
                assert(raw0 == child.raw(v0));
            }
            if fitted && r is Ok {
                let v4 = fs.cache.view();
                let start = fs.data_bitmap.start_blk_no;
                let ds = fs.data_start();
                let nblks = fs.superblock.data_blocks as int;
                let h0 = self.raw(v0);
                let h2 = self.raw(v2);
                let h4 = self.raw(v4);
                let hi0 = write_hi(0, h0.size + 80);
                assert(forall|x: u64| #[trigger] v2.dom().contains(x) ==> v4.dom().contains(x) && (x != child.blk_no ==> v4[x] == v2[x]));
                lemma_untouched_frame(v0, v1, v2, v4, h0, start, ds, nblks, 0, hi0, Some(child.blk_no));
                let o = choose|o: int|
                    0 <= o && o % 80 == 0 && o + 80 <= content_end(h2) && entry_placed(v2, h2, o)
                        && #[trigger] entry_at(v2, h2, o) == dirent && write_ready(fs2, h2, o, 80) && fresh_blocks(
                        v1,
                        self.raw(v1),
                        v2,
                        h2,
                        start,
                        ds,
                        nblks,
                        o / 4096,
                        write_hi(o, 80),
                    ) && kept_outside(v1, v2, self.raw(v1), h2, o, 80, o / 4096, write_hi(o, 80)) && ptrs_kept(
                        v1,
                        self.raw(v1),
                        v2,
                        h2,
                        o / 4096,
                        write_hi(o, 80),
                    ) && (o >= self.raw(v1).size || (entry_known(v1, self.raw(v1), o) ==> entry_at(
                        v1,
                        self.raw(v1),
                        o,
                    ).inode_no == 0));
                let lo_o = o / 4096;
                let hi_o = write_hi(o, 80);
                lemma_write_hi_mono(o, 80, h0.size + 80);
                lemma_sound_sub(v0, h0, start, ds, nblks, 0, hi0, lo_o, hi_o);
                lemma_fresh_frame(v0, v1, h0, v2, h2, v4, start, ds, nblks, lo_o, hi_o, Some(child.blk_no));
                lemma_sound_frame(v2, v4, h2, start, ds, nblks, lo_o, hi_o, Some(child.blk_no));
                assert forall|cb: u64, co: int, m: RawINode|
                    cb < start && 0 <= co && co + 132 <= 4096 && records_apart(cb, co, self.blk_no, self.blk_offset as int)
                        && records_apart(cb, co, child.blk_no, child.blk_offset as int) && stored_inode(v0, cb, co, m)
                        implies #[trigger] stored_inode(v4, cb, co, m) by {
                    lemma_stored_extends(v0, v1, cb, co, m);
                    lemma_stored_extends(v2, v3, cb, co, m);
                    if cb == child.blk_no {
                        lemma_splice_outside(
                            v3[cb],
                            child.blk_offset as int,
                            v4[cb].subrange(child.blk_offset as int, child.blk_offset + 132),
                            co,
                            132,
                        );
                    }
                }
                if child.blk_no == self.blk_no && child.blk_offset == self.blk_offset {
                    lemma_stored_extends(v2, v3, self.blk_no, self.blk_offset as int, h2);
                    assert(raw0 == h2);
                    assert(h4 == child.raw(v4));
                } else {
                    lemma_stored_extends(v2, v3, self.blk_no, self.blk_offset as int, h2);
                    if self.blk_no == child.blk_no {
                        lemma_splice_outside(
                            v3[self.blk_no],
                            child.blk_offset as int,
                            v4[child.blk_no].subrange(child.blk_offset as int, child.blk_offset + 132),
                            self.blk_offset as int,
                            132,
                        );
                    }
                    assert(stored_inode(v4, self.blk_no, self.blk_offset as int, h2));
                    lemma_inode_in(v4, self.blk_no, self.blk_offset as int, h2);
                    lemma_stored_extends(v2, v3, child.blk_no, child.blk_offset as int, child.raw(v0));
                }
                let eb = entry_bytes(v2, h2, o);
                assert(write_len(o, 80) == 80);
                assert((o + 80 - 1) / 4096 < write_hi(o, 80));
                assert(holds_prefix(v2, h2, o, eb, 80));
                lemma_prefix_frame(v2, v4, h2, start, ds, nblks, hi_o, o, eb, 80, child.blk_no);
                lemma_same_pointers(v4, h2, h4, start, ds, nblks, lo_o, hi_o, o, eb, 80);
                assert(entry_bytes(v4, h4, o) =~= eb) by {
                    assert forall|i: int| 0 <= i < 80 implies #[trigger] entry_bytes(v4, h4, o)[i] == eb[i] by {
                        assert(file_byte(v4, h4, o + i) == eb[(o + i) - o]);
                    }
                }
                assert(entry_at(v4, h4, o) == dirent);
                assert(entry_placed(v4, h4, o));
                assert(write_ready(*fs, h4, o, 80));
                lemma_kept_extends(v0, v1, v2, h0, h2, o, 80, lo_o, hi_o);
                assert forall|j: int| lo_o <= j < hi_o && file_blk(v0, h0, j) != 0 implies #[trigger] file_blk(v2, h2, j)
                    == file_blk(v0, h0, j) by {
                    assert(file_blk(v1, h0, j) == file_blk(v0, h0, j));
                }
                lemma_kept_frame(v0, h0, v2, h2, v4, start, ds, nblks, o, 80, lo_o, hi_o, child.blk_no);
                assert forall|j: int| lo_o <= j < hi_o && file_blk(v0, h0, j) != 0 implies #[trigger] file_blk(v4, h2, j)
                    == file_blk(v0, h0, j) by {
                    assert(file_blk(v2, h2, j) == file_blk(v0, h0, j));
                }
                lemma_keep_same_pointers(v0, h0, v4, h2, h4, o, 80, lo_o, hi_o);
                if entry_known(v0, h0, o) {
                    lemma_entry_extends(v0, v1, h0, o);
                }
            }
        }
        r
    }

    /// Removes the entry named `name`, which must name `child`, and counts
    /// the link off the child's record. No such entry is
    /// `NoSuchFileOrDirectory`; an entry naming another inode is
    /// `FileSystemCorruption`.
    pub fn unlink<D: BlockDevice, A: BlockBufferAllocator>(
        &self,
        fs: &mut EfsFileSystem<D, A>,
        child: &INode,
        name: &[u8],
    ) -> (r: Result<(), FsError>)
        requires
            self.wf(),
            child.wf(),
            old(fs).wf(),
        ensures
            fs_same_layout(*old(fs), *final(fs)),
            unlink_room(*old(fs), *self, *child, name@) ==> r is Ok,
            links_apart(*old(fs), *self, *child) ==> (r is Ok ==> ({
                let v0 = old(fs).cache.view();
                let v = final(fs).cache.view();
                &&& child.raw(v) == (RawINode {
                    nlink: if child.raw(v0).nlink == 0 {
                        0
                    } else {
                        (child.raw(v0).nlink - 1) as u32
                    },
                    ..child.raw(v0)
                })
                &&& entry_removed(
                    v0,
                    v,
                    self.raw(v0),
                    self.raw(v),
                    child.ino,
                    name@,
                    old(fs).data_bitmap.start_blk_no,
                    old(fs).data_start(),
                    old(fs).superblock.data_blocks as int,
                )
            })),
            dir_fits(*old(fs), *self) && child.blk_no == self.blk_no && child.blk_offset == self.blk_offset ==> (r
                is Ok ==> ({
                let v0 = old(fs).cache.view();
                let v = final(fs).cache.view();
                let n0 = self.raw(v0);
                &&& self.raw(v).nlink == (if n0.nlink == 0 {
                    0
                } else {
                    n0.nlink - 1
                })
                &&& spec_file_type(self.raw(v)) == spec_file_type(n0)
                &&& entry_removed(
                    v0,
                    v,
                    n0,
                    self.raw(v),
                    child.ino,
                    name@,
                    old(fs).data_bitmap.start_blk_no,
                    old(fs).data_start(),
                    old(fs).superblock.data_blocks as int,
                )
            })),
    {
        let ghost v0 = fs.cache.view();
        let ghost fs0 = *fs;
        let ghost ready = links_apart(*fs, *self, *child);
        let ghost selfcase = dir_fits(*fs, *self) && child.blk_no == self.blk_no && child.blk_offset
            == self.blk_offset;
        let ghost uroom = unlink_room(*fs, *self, *child, name@);
        let dirent = match self.remove_entry(fs, name) {
            Ok(d) => d,
            Err(e) => {
                return Err(e);
            },
        };
        let ghost v1 = fs.cache.view();
        match dirent {
            Some(dirent_inode_no) => {
                proof {
                    if uroom {
                        let n0 = self.raw(v0);
                        let o = choose|o: int|
                            0 <= o && o % 80 == 0 && o + 80 <= n0.size && !#[trigger] entry_misses(v0, n0, o, name@)
                                && entry_at(v0, n0, o).inode_no == dirent_inode_no;
                        assert(entry_at(v0, n0, o).inode_no == child.ino);
                    }
                }
                if dirent_inode_no != child.inode_no() {
                    return Err(
                        FsError::with_fmt_args(FsErrorKind::FileSystemCorruption, "unlink: mismatched inode"),
                    );
                }
                proof {
                    if ready {
                        assert(stored_inode(v1, child.blk_no, child.blk_offset as int, child.raw(v0)));
                        lemma_inode_in(v1, child.blk_no, child.blk_offset as int, child.raw(v0));
                        fs.cache.lemma_view_block_sized();
                    }
                }
                let mut raw = match child.read_raw_inode(fs) {
                    Ok(n) => n,
                    Err(e) => {
                        return Err(e);
                    },
                };
                let ghost v2 = fs.cache.view();
                proof {
                    if ready {
                        lemma_stored_extends(v1, v2, child.blk_no, child.blk_offset as int, child.raw(v0));
                    }
                }
                let ghost raw0 = raw;
                raw.decrease_link();
                let r = child.write_raw_inode(fs, raw);
                proof {
                    if selfcase && r is Ok {
                        assert(dir_fits(fs0, *self));
                        assert(stored_inode(v1, self.blk_no, self.blk_offset as int, self.raw(v1)));
                        lemma_stored_extends(v1, v2, self.blk_no, self.blk_offset as int, self.raw(v1));
                        assert(raw0 == self.raw(v1));
                        fs.cache.lemma_view_block_sized();
                        lemma_unlink_self_done(
                            v0,
                            v1,
                            fs.cache.view(),
                            *self,
                            raw,
                            dirent_inode_no,
                            name@,
                            fs.data_bitmap.start_blk_no,
                            fs.data_start(),
                            fs.superblock.data_blocks as int,
                        );
                    }
                }
                proof {
                    if ready && r is Ok {
                        lemma_unlink_done(
                            v0,
                            v1,
                            fs.cache.view(),
                            *self,
                            *child,
                            dirent_inode_no,
                            name@,
                            fs.data_bitmap.start_blk_no,
                            fs.data_start(),
                            fs.superblock.data_blocks as int,
                        );
                    }
                }
                r
            },
            None => {
                proof {
                    if uroom {
                        let n0 = self.raw(v0);
                        let o = choose|o: int|
                            0 <= o && o % 80 == 0 && o + 80 <= content_end(n0) && !#[trigger] entry_misses(
                                v0,
                                n0,
                                o,
                                name@,
                            );
                        lemma_stored_extends(v0, v1, self.blk_no, self.blk_offset as int, n0);
                        assert(dirent_readable(fs0, *self, o));
                        lemma_readable_extends(fs0, *fs, *self, o);
                        assert(entry_misses(v1, self.raw(v1), o, name@));
                    }
                }
                Err(FsError::from(FsErrorKind::NoSuchFileOrDirectory))
            },
        }
    }

    /// Sets up the root directory: a directory whose `.` names itself.
    pub fn init_root_dir<D: BlockDevice, A: BlockBufferAllocator>(
        &self,
        fs: &mut EfsFileSystem<D, A>,
    ) -> (r: Result<(), FsError>)
        requires
            self.wf(),
            old(fs).wf(),
        ensures
            fs_same_layout(*old(fs), *final(fs)),
            root_fits(*old(fs), *self) ==> (r is Ok ==> ({
                let v = final(fs).cache.view();
                let n = self.raw(v);
                &&& stored_inode(v, self.blk_no, self.blk_offset as int, n)
                &&& spec_file_type(n) == FileType::Directory
                &&& n.nlink == 1
                &&& n.size == 80
                &&& entry_placed(v, n, 0)
                &&& entry_at(v, n, 0).inode_no == self.ino
                &&& entry_at(v, n, 0).typ == FileType::Directory
                &&& dirent_name(entry_at(v, n, 0)) == seq![46u8]
            })),
    {
        let ghost ready = root_fits(*fs, *self);
        match self.init_inode(fs, FileType::Directory, 0) {
            Ok(()) => {},
            Err(e) => {
                return Err(e);
            },
        }
        proof {
            reveal_strlit(".");
            vstd::string::is_ascii_spec_bytes(".");
            if ready {
                let v3 = fs.cache.view();
                assert(write_hi(0, 80) == 1);
                lemma_fresh_ready(
                    v3,
                    self.raw(v3),
                    fs.data_bitmap.start_blk_no,
                    fs.data_start(),
                    fs.superblock.data_blocks as int,
                    1,
                );
                assert(link_fits(*fs, *self, *self));
            }
        }
        self.link(fs, self, ".")
    }

    /// Checks that an entry named `name` can be created: the inode is a
    /// linked directory without such an entry.
    pub fn check_for_create<D: BlockDevice, A: BlockBufferAllocator>(
        &self,
        fs: &mut EfsFileSystem<D, A>,
        name: ValidFileName,
    ) -> (r: Result<(), FsError>)
        requires
            self.wf(),
            old(fs).wf(),
        ensures
            fs_same_layout(*old(fs), *final(fs)),
            extends(old(fs).cache.view(), final(fs).cache.view()),
            r is Ok ==> spec_file_type(self.raw(final(fs).cache.view())) == FileType::Directory
                && self.raw(final(fs).cache.view()).nlink != 0,
            r matches Err(e) && e.kind == FsErrorKind::NotADirectory ==> spec_file_type(
                self.raw(final(fs).cache.view()),
            ) != FileType::Directory,
            r matches Err(e) && e.kind == FsErrorKind::NoSuchFileOrDirectory ==> self.raw(
                final(fs).cache.view(),
            ).nlink == 0,
            ({
                let v0 = old(fs).cache.view();
                let n = self.raw(v0);
                stored_inode(v0, self.blk_no, self.blk_offset as int, n) && spec_file_type(n) == FileType::Directory
                    && n.nlink != 0 && all_readable(*old(fs), *self) && name_absent(v0, n, name.spec_str().spec_bytes())
            }) ==> r is Ok,
    {
        let ghost v0 = fs.cache.view();
        let inode = match self.read_raw_inode(fs) {
            Ok(n) => n,
            Err(e) => {
                return Err(e);
            },
        };
        let ghost v1 = fs.cache.view();
        proof {
            if stored_inode(v0, self.blk_no, self.blk_offset as int, self.raw(v0)) {
                lemma_stored_extends(v0, v1, self.blk_no, self.blk_offset as int, self.raw(v0));
                if all_readable(*old(fs), *self) {
                    assert forall|o: int| 0 <= o <= self.raw(v1).size && o % 80 == 0 implies #[trigger] dirent_readable(
                        *fs,
                        *self,
                        o,
                    ) by {
                        assert(dirent_readable(*old(fs), *self, o));
                        lemma_readable_extends(*old(fs), *fs, *self, o);
                    }
                }
            }
        }
        if inode.file_type() != FileType::Directory {
            return Err(FsError::from(FsErrorKind::NotADirectory));
        }
        if inode.nlink() == 0 {
            return Err(FsError::from(FsErrorKind::NoSuchFileOrDirectory));
        }
        match self.lookup(fs, ValidLookupName::from_file_name(name)) {
            Ok(Some(d)) => {
                proof {
                    lemma_stored_extends(v1, fs.cache.view(), self.blk_no, self.blk_offset as int, inode);
                    let v0 = old(fs).cache.view();
                    if stored_inode(v0, self.blk_no, self.blk_offset as int, self.raw(v0)) && all_readable(*old(fs), *self)
                        && name_absent(v0, self.raw(v0), name.spec_str().spec_bytes()) {
                        let o = choose|o: int|
                            0 <= o && o % 80 == 0 && o + 80 <= content_end(self.raw(fs.cache.view())) && entry_known(
                                fs.cache.view(),
                                self.raw(fs.cache.view()),
                                o,
                            ) && #[trigger] entry_at(fs.cache.view(), self.raw(fs.cache.view()), o) == d;
                        assert(dirent_readable(*old(fs), *self, o));
                        lemma_readable_extends(*old(fs), *fs, *self, o);
                        assert(entry_at(v0, self.raw(v0), o) == d);
                        assert(false);
                    }
                }
                Err(FsError::from(FsErrorKind::AlreadyExists))
            },
            Ok(None) => {
                proof {
                    lemma_stored_extends(v1, fs.cache.view(), self.blk_no, self.blk_offset as int, inode);
                }
                Ok(())
            },
            Err(e) => {
                proof {
                    lemma_stored_extends(v1, fs.cache.view(), self.blk_no, self.blk_offset as int, inode);
                }
                Err(e)
            },
        }
    }

    /// Allocates an inode and gives its handle; none free is `NoSpaceLeft`.
    fn alloc_child<D: BlockDevice, A: BlockBufferAllocator>(
        fs: &mut EfsFileSystem<D, A>,
    ) -> (r: Result<INode, FsError>)
        requires
            old(fs).wf(),
        ensures
            fs_same_layout(*old(fs), *final(fs)),
            r matches Ok(c) ==> c.wf() && c.ino < old(fs).inode_bitmap.bits_len && c.blk_no == 2
                + old(fs).superblock.inode_bitmap_blocks + c.ino / 31 && c.blk_offset == 132 * (c.ino % 31)
                && bit_flipped(old(fs).cache.view(), final(fs).cache.view(), 2, c.ino as int, true) && (old(
                fs,
            ).cache.view().dom().contains(bit_blk(2, c.ino as int)) ==> !bit_set(old(fs).cache.view(), 2, c.ino as int))
                && (forall|j: int| 0 <= j < c.ino ==> #[trigger] bit_set(final(fs).cache.view(), 2, j)),
            r matches Err(e) ==> e.kind == FsErrorKind::NoSpaceLeft || e.kind == FsErrorKind::OutOfMemory || e.kind
                == FsErrorKind::IOError,
            r matches Err(e) && e.kind == FsErrorKind::NoSpaceLeft ==> forall|j: int|
                0 <= j < old(fs).inode_bitmap.bits_len ==> #[trigger] bit_set(final(fs).cache.view(), 2, j),
            covers(old(fs).cache.view(), 2, old(fs).inode_bitmap.bits_len as int) && (exists|j: int|
                0 <= j < old(fs).inode_bitmap.bits_len && !#[trigger] bit_set(old(fs).cache.view(), 2, j)) ==> r is Ok,
    {
        let ghost v0 = fs.cache.view();
        let new_ino = match fs.alloc_inode() {
            Ok(i) => i,
            Err(e) => {
                proof {
                    if covers(v0, 2, fs.inode_bitmap.bits_len as int) && (exists|j: int|
                        0 <= j < fs.inode_bitmap.bits_len && !#[trigger] bit_set(v0, 2, j)) {
                        let j = choose|j: int| 0 <= j < fs.inode_bitmap.bits_len && !#[trigger] bit_set(v0, 2, j);
                        assert(v0.dom().contains(bit_blk(2, j)));
                        assert(fs.cache.view()[bit_blk(2, j)] == v0[bit_blk(2, j)]);
                        assert(bit_set(fs.cache.view(), 2, j));
                    }
                }
                return Err(e);
            },
        };
        proof {
            let ib = fs.superblock.inode_blocks as int;
            assert(new_ino / 31 < ib) by (nonlinear_arith)
                requires
                    new_ino < ib * 31,
            ;
        }
        Ok(INode::new(fs, new_ino))
    }

    /// Creates an empty regular file named `name` in the directory and
    /// gives its inode number. Besides the errors of `check_for_create`,
    /// no free inode is `NoSpaceLeft`; when setting up the new inode fails
    /// it is freed again.
    pub fn create_file<D: BlockDevice, A: BlockBufferAllocator>(
        &self,
        fs: &mut EfsFileSystem<D, A>,
        name: ValidFileName,
    ) -> (r: Result<u64, FsError>)
        requires
            self.wf(),
            old(fs).wf(),
            name.spec_str().spec_bytes().len() <= FILE_NAME_LEN,
        ensures
            fs_same_layout(*old(fs), *final(fs)),
            r matches Ok(ino) ==> ino < old(fs).inode_bitmap.bits_len,
            create_fits(*old(fs), *self) ==> (r matches Ok(ino) ==> ({
                let v = final(fs).cache.view();
                let c = inode_in(v, (2 + old(fs).superblock.inode_bitmap_blocks + ino / 31) as u64, 132 * (ino % 31));
                &&& spec_file_type(c) == FileType::File
                &&& c.nlink == 1
                &&& c.size == 0
                &&& exists|o: int|
                    0 <= o && o % 80 == 0 && o + 80 <= content_end(self.raw(v)) && entry_placed(v, self.raw(v), o)
                        && #[trigger] entry_at(v, self.raw(v), o).inode_no == ino && entry_at(v, self.raw(v), o).typ
                        == FileType::File && dirent_name(entry_at(v, self.raw(v), o)) == name.spec_str().spec_bytes()
            })),
            create_room(*old(fs), *self, name.spec_str().spec_bytes()) ==> r is Ok,

    {
        let ghost v0 = fs.cache.view();
        let ghost ready = create_fits(*fs, *self);
        match self.check_for_create(fs, name) {
            Ok(()) => {},
            Err(e) => {
                return Err(e);
            },
        }
        let ghost fs1 = *fs;
        let ghost roomy = create_room(*old(fs), *self, name.spec_str().spec_bytes());
        proof {
            if ready {
                lemma_create_fits_extends(*old(fs), fs1, *self);
            }
            if roomy {
                lemma_create_room_extends(*old(fs), fs1, *self, name.spec_str().spec_bytes());
            }
        }
        let new_inode = match Self::alloc_child(fs) {
            Ok(c) => c,
            Err(e) => {
                return Err(e);
            },
        };
        let ghost fs2 = *fs;
        proof {
            if ready {
                lemma_child_apart(fs1, fs2, *self, new_inode);
                fs.cache.lemma_view_block_sized();
            }
            if roomy {
                lemma_create_room_alloc(fs1, fs2, *self, new_inode, name.spec_str().spec_bytes());
            }
        }
        let res = match new_inode.init_inode(fs, FileType::File, 0) {
            Ok(()) => {
                proof {
                    if ready {
                        lemma_record_write_keeps_dir(fs2, *fs, *self, new_inode);
                    }
                    if roomy {
                        let v1 = fs1.cache.view();
                        let v2 = fs2.cache.view();
                        let v3 = fs.cache.view();
                        assert(high_kept(v2, v3, fs.data_start()));
                        assert(high_kept(v1, v3, fs.data_start()));
                        lemma_room_high(fs1, *fs, *self, name.spec_str().spec_bytes());
                    }
                }
                self.link(fs, &new_inode, name.as_str())
            },
            Err(e) => Err(e),
        };
        match res {
            Ok(()) => Ok(new_inode.ino),
            Err(err) => {
                match fs.dealloc_inode(new_inode.ino) {
                    Ok(()) => Err(err),
                    Err(e) => Err(e),
                }
            },
        }
    }

    /// Creates a directory named `name` (with `.` and `..`) in the
    /// directory and gives its inode number; errors as for `create_file`.
    #[verifier::rlimit(40)]
    #[verifier::spinoff_prover]
    pub fn mkdir<D: BlockDevice, A: BlockBufferAllocator>(
        &self,
        fs: &mut EfsFileSystem<D, A>,
        name: ValidFileName,
    ) -> (r: Result<u64, FsError>)
        requires
            self.wf(),
            old(fs).wf(),
            name.spec_str().spec_bytes().len() <= FILE_NAME_LEN,
        ensures
            fs_same_layout(*old(fs), *final(fs)),
            r matches Ok(ino) ==> ino < old(fs).inode_bitmap.bits_len,
            create_fits(*old(fs), *self) ==> (r matches Ok(ino) ==> ({
                let v = final(fs).cache.view();
                let c = inode_in(v, (2 + old(fs).superblock.inode_bitmap_blocks + ino / 31) as u64, 132 * (ino % 31));
                &&& spec_file_type(c) == FileType::Directory
                &&& c.nlink == 2
                &&& self.raw(v).nlink == self.raw(old(fs).cache.view()).nlink + 1
                &&& exists|o: int|
                    0 <= o && o % 80 == 0 && o + 80 <= content_end(self.raw(v)) && entry_placed(v, self.raw(v), o)
                        && #[trigger] entry_at(v, self.raw(v), o).inode_no == ino && entry_at(v, self.raw(v), o).typ
                        == FileType::Directory && dirent_name(entry_at(v, self.raw(v), o))
                        == name.spec_str().spec_bytes()
                &&& exists|o: int|
                    0 <= o && o % 80 == 0 && o + 80 <= content_end(c) && entry_placed(v, c, o) && #[trigger] entry_at(
                        v,
                        c,
                        o,
                    ).inode_no == ino && entry_at(v, c, o).typ == FileType::Directory && dirent_name(entry_at(v, c, o))
                        == seq![46u8]
                &&& exists|o: int|
                    0 <= o && o % 80 == 0 && o + 80 <= content_end(c) && entry_placed(v, c, o) && #[trigger] entry_at(
                        v,
                        c,
                        o,
                    ).inode_no == self.ino && entry_at(v, c, o).typ == FileType::Directory && dirent_name(
                        entry_at(v, c, o),
                    ) == seq![46u8, 46u8]
            })),
    {
        let ghost ready = create_fits(*fs, *self);
        match self.check_for_create(fs, name) {
            Ok(()) => {},
            Err(e) => {
                return Err(e);
            },
        }
        let ghost fs1 = *fs;
        proof {
            if ready {
                lemma_create_fits_extends(*old(fs), fs1, *self);
            }
        }
        let new_inode = match Self::alloc_child(fs) {
            Ok(c) => c,
            Err(e) => {
                return Err(e);
            },
        };
        let ghost fs2 = *fs;
        proof {
            if ready {
                lemma_child_apart(fs1, fs2, *self, new_inode);
                fs.cache.lemma_view_block_sized();
                assert(new_inode.ino != 0);
            }
            reveal_strlit(".");
            vstd::string::is_ascii_spec_bytes(".");
            reveal_strlit("..");
            vstd::string::is_ascii_spec_bytes("..");
        }
        let res = match new_inode.init_inode(fs, FileType::Directory, 0) {
            Ok(()) => {
                let ghost fs3 = *fs;
                let ghost v3 = fs.cache.view();
                let ghost c3 = new_inode.raw(v3);
                let ghost h3 = self.raw(v3);
                let ghost start = fs.data_bitmap.start_blk_no;
                let ghost ds = fs.data_start();
                let ghost nblks = fs.superblock.data_blocks as int;
                let ghost hp = write_hi(0, h3.size + 80);
                proof {
                    if ready {
                        lemma_record_write_keeps_dir(fs2, fs3, *self, new_inode);
                        assert(write_hi(0, 80) == 1);
                        lemma_fresh_ready(v3, c3, start, ds, nblks, 1);
                        assert(link_fits(fs3, new_inode, new_inode));
                    }
                }
                match new_inode.link(fs, &new_inode, ".") {
                    Ok(()) => {
                        let ghost fs4 = *fs;
                        let ghost v4 = fs.cache.view();
                        let ghost c4 = new_inode.raw(v4);
                        proof {
                            if ready {
                                assert forall|cb: u64, co: int, m: RawINode|
                                    cb < start && 0 <= co && co + 132 <= 4096 && records_apart(
                                        cb,
                                        co,
                                        new_inode.blk_no,
                                        new_inode.blk_offset as int,
                                    ) && stored_inode(v3, cb, co, m) implies #[trigger] stored_inode(v4, cb, co, m) by {}
                                lemma_dir_after_fresh_write(fs3, fs4, *self, new_inode, 1);
                                let o = choose|o: int|
                                    0 <= o && o % 80 == 0 && o + 80 <= c4.size && #[trigger] write_ready(fs4, c4, o, 80)
                                        && fresh_blocks(v3, c3, v4, c4, start, ds, nblks, o / 4096, write_hi(o, 80));
                                assert(o == 0);
                                assert(write_hi(0, 160) == 1);
                                assert(link_fits(fs4, new_inode, *self));
                                assert(links_apart(fs4, new_inode, *self));
                                lemma_walks_apart_from_fresh(v3, v4, h3, c3, c4, start, ds, nblks, hp);
                            }
                        }
                        match new_inode.link(fs, self, "..") {
                            Ok(()) => {
                                let ghost fs5 = *fs;
                                let ghost v5 = fs.cache.view();
                                let ghost c5 = new_inode.raw(v5);
                                let ghost h5 = self.raw(v5);
                                proof {
                                    if ready {
                                        lemma_sound_apart(v4, v5, h3, c4, start, ds, nblks, hp, 0, 1);
                                        lemma_same_pointers(v5, h3, h5, start, ds, nblks, 0, hp, 0, Seq::empty(), 0);
                                        assert(dir_fits(fs5, *self));
                                        assert(links_apart(fs5, *self, new_inode));
                                    }
                                }
                                let lr = self.link(fs, &new_inode, name.as_str());
                                proof {
                                    if ready && lr is Ok {
                                        let v6 = fs.cache.view();
                                        let c6 = new_inode.raw(v6);
                                        let h5 = self.raw(v5);
                                        let o1 = choose|o: int|
                                            0 <= o && o % 80 == 0 && o + 80 <= content_end(c4) && o + 80 <= c4.size
                                                && entry_placed(v4, c4, o) && #[trigger] entry_at(v4, c4, o).inode_no
                                                == new_inode.ino && entry_at(v4, c4, o).typ == spec_file_type(c3)
                                                && dirent_name(entry_at(v4, c4, o)) == ".".spec_bytes() && write_ready(
                                                fs4,
                                                c4,
                                                o,
                                                80,
                                            ) && fresh_blocks(v3, c3, v4, c4, start, ds, nblks, o / 4096, write_hi(o, 80))
                                                && kept_outside(v3, v4, c3, c4, o, 80, o / 4096, write_hi(o, 80))
                                                && ptrs_kept(v3, c3, v4, c4, o / 4096, write_hi(o, 80)) && (o >= c3.size
                                                || (entry_known(v3, c3, o) ==> entry_at(v3, c3, o).inode_no == 0));
                                        assert(o1 == 0);
                                        let o2 = choose|o: int|
                                            0 <= o && o % 80 == 0 && o + 80 <= content_end(c5) && o + 80 <= c5.size
                                                && entry_placed(v5, c5, o) && #[trigger] entry_at(v5, c5, o).inode_no
                                                == self.ino && entry_at(v5, c5, o).typ == spec_file_type(self.raw(v4))
                                                && dirent_name(entry_at(v5, c5, o)) == "..".spec_bytes() && write_ready(
                                                fs5,
                                                c5,
                                                o,
                                                80,
                                            ) && fresh_blocks(v4, c4, v5, c5, start, ds, nblks, o / 4096, write_hi(o, 80))
                                                && kept_outside(v4, v5, c4, c5, o, 80, o / 4096, write_hi(o, 80))
                                                && ptrs_kept(v4, c4, v5, c5, o / 4096, write_hi(o, 80)) && (o >= c4.size
                                                || (entry_known(v4, c4, o) ==> entry_at(v4, c4, o).inode_no == 0));
                                        assert(entry_known(v4, c4, 0)) by {
                                            assert forall|i: int| 0 <= i < 80 implies #[trigger] byte_known(v4, c4, 0 + i) by {
                                                assert(file_byte(v4, c4, 0 + i) == entry_bytes(v4, c4, 0)[(0 + i) - 0]);
                                            }
                                        }
                                        assert(o2 == 80);
                                        lemma_dir_entries_kept(v3, v4, v5, v6, c3, c4, c5, c6, h3, h5, start, ds, nblks, hp);
                                    }
                                }
                                lr
                            },
                            Err(err) => {
                                match new_inode.unlink(fs, &new_inode, ".".as_bytes()) {
                                    Ok(()) => Err(err),
                                    Err(e) => Err(e),
                                }
                            },
                        }
                    },
                    Err(e) => Err(e),
                }
            },
            Err(e) => Err(e),
        };
        match res {
            Ok(()) => Ok(new_inode.ino),
            Err(err) => {
                match fs.dealloc_inode(new_inode.ino) {
                    Ok(()) => Err(err),
                    Err(e) => Err(e),
                }
            },
        }
    }

    /// Creates a file named `name` holding `linkpath` and gives its inode
    /// number. A target of 64 bytes or more is `InvalidArgument`; when the
    /// target cannot be written whole, the file is emptied and the write's
    /// error (or `IOError`) returned.
    pub fn symlink<D: BlockDevice, A: BlockBufferAllocator>(
        &self,
        fs: &mut EfsFileSystem<D, A>,
        name: ValidFileName,
        linkpath: &[u8],
    ) -> (r: Result<u64, FsError>)
        requires
            self.wf(),
            old(fs).wf(),
            name.spec_str().spec_bytes().len() <= FILE_NAME_LEN,
        ensures
            fs_same_layout(*old(fs), *final(fs)),
            linkpath@.len() >= 64 ==> (r matches Err(e) && e.kind == FsErrorKind::InvalidArgument)
                && final(fs).cache.view() == old(fs).cache.view(),
            r matches Ok(ino) ==> ino < old(fs).inode_bitmap.bits_len,
            create_fits(*old(fs), *self) ==> (r matches Ok(ino) ==> ({
                let v = final(fs).cache.view();
                let c = inode_in(v, (2 + old(fs).superblock.inode_bitmap_blocks + ino / 31) as u64, 132 * (ino % 31));
                &&& spec_file_type(c) == FileType::File
                &&& c.nlink == 1
                &&& c.size == linkpath@.len()
                &&& holds_prefix(v, c, 0, linkpath@, linkpath@.len() as int)
                &&& exists|o: int|
                    0 <= o && o % 80 == 0 && o + 80 <= content_end(self.raw(v)) && entry_placed(v, self.raw(v), o)
                        && #[trigger] entry_at(v, self.raw(v), o).inode_no == ino && entry_at(v, self.raw(v), o).typ
                        == FileType::File && dirent_name(entry_at(v, self.raw(v), o)) == name.spec_str().spec_bytes()
            })),
    {
        if linkpath.len() >= 64 {
            return Err(FsError::from(FsErrorKind::InvalidArgument));
        }
        let ghost ready = create_fits(*fs, *self);
        match self.check_for_create(fs, name) {
            Ok(()) => {},
            Err(e) => {
                return Err(e);
            },
        }
        let ghost fs1 = *fs;
        proof {
            if ready {
                lemma_create_fits_extends(*old(fs), fs1, *self);
            }
        }
        let new_inode = match Self::alloc_child(fs) {
            Ok(c) => c,
            Err(e) => {
                return Err(e);
            },
        };
        let ghost fs2 = *fs;
        proof {
            if ready {
                lemma_child_apart(fs1, fs2, *self, new_inode);
                fs.cache.lemma_view_block_sized();
            }
        }
        let res = match new_inode.init_inode(fs, FileType::File, 0) {
            Ok(()) => {
                let ghost fs3 = *fs;
                let ghost v3 = fs.cache.view();
                let ghost n3 = new_inode.raw(v3);
                let ghost start = fs.data_bitmap.start_blk_no;
                let ghost ds = fs.data_start();
                let ghost nblks = fs.superblock.data_blocks as int;
                let ghost hc = write_hi(0, linkpath@.len() as int);
                proof {
                    if ready {
                        lemma_record_write_keeps_dir(fs2, fs3, *self, new_inode);
                        assert(write_len(0, linkpath@.len() as int) == linkpath@.len());
                        assert(0 <= hc <= 1);
                        lemma_fresh_ready(v3, n3, start, ds, nblks, hc);
                    }
                }
                let result = new_inode.write(fs, 0, linkpath);
                let whole = match &result {
                    Ok(len) => *len == linkpath.len() as u64,
                    Err(_) => false,
                };
                if !whole {
                    match new_inode.raw_truncate(fs, 0) {
                        Ok(()) => match result {
                            Err(e) => Err(e),
                            Ok(_) => Err(FsError::from(FsErrorKind::IOError)),
                        },
                        Err(e) => Err(e),
                    }
                } else {
                    let ghost fs4 = *fs;
                    let ghost v4 = fs.cache.view();
                    let ghost n4 = new_inode.raw(v4);
                    let ghost p = self.raw(v3);
                    let ghost hp = write_hi(0, p.size + 80);
                    proof {
                        if ready {
                            lemma_dir_after_fresh_write(fs3, fs4, *self, new_inode, hc);
                        }
                    }
                    let lr = self.link(fs, &new_inode, name.as_str());
                    proof {
                        if ready && lr is Ok {
                            let v5 = fs.cache.view();
                            lemma_content_survives_link(
                                v3,
                                v4,
                                v5,
                                p,
                                n3,
                                n4,
                                new_inode.raw(v5),
                                start,
                                ds,
                                nblks,
                                hp,
                                hc,
                                linkpath@,
                                linkpath@.len() as int,
                            );
                        }
                    }
                    lr
                }
            },
            Err(e) => Err(e),
        };
        match res {
            Ok(()) => Ok(new_inode.ino),
            Err(err) => {
                match fs.dealloc_inode(new_inode.ino) {
                    Ok(()) => Err(err),
                    Err(e) => Err(e),
                }
            },
        }
    }

    /// Removes the entry `name` of `child` from the directory; an empty
    /// directory child loses its `.` and `..` first. Not a directory is
    /// `NotADirectory`; an unlinked directory is `NoSuchFileOrDirectory`;
    /// an unlinked or untyped child is `FileSystemCorruption`; a directory
    /// child with entries is `NotEmpty`.
    pub fn remove<D: BlockDevice, A: BlockBufferAllocator>(
        &self,
        fs: &mut EfsFileSystem<D, A>,
        child: &INode,
        name: ValidFileName,
    ) -> (r: Result<(), FsError>)
        requires
            self.wf(),
            child.wf(),
            old(fs).wf(),
        ensures
            fs_same_layout(*old(fs), *final(fs)),
            stored_inode(old(fs).cache.view(), self.blk_no, self.blk_offset as int, self.raw(old(fs).cache.view()))
                ==> ({
                let v0 = old(fs).cache.view();
                let p = self.raw(v0);
                let c = child.raw(v0);
                let child_known = stored_inode(v0, child.blk_no, child.blk_offset as int, c);
                &&& spec_file_type(p) != FileType::Directory ==> (r matches Err(e) && e.kind
                    == FsErrorKind::NotADirectory)
                &&& spec_file_type(p) == FileType::Directory && p.nlink == 0 ==> (r matches Err(e) && e.kind
                    == FsErrorKind::NoSuchFileOrDirectory)
                &&& spec_file_type(p) == FileType::Directory && p.nlink != 0 && child_known && (c.nlink == 0
                    || spec_file_type(c) == FileType::Unknown) ==> (r matches Err(e) && e.kind
                    == FsErrorKind::FileSystemCorruption)
                &&& spec_file_type(p) == FileType::Directory && p.nlink != 0 && child_known && c.nlink != 0
                    && spec_file_type(c) == FileType::Directory && c.size >= 160 && all_readable(*old(fs), *child)
                    && (exists|o: int|
                    160 <= o && o % 80 == 0 && o + 80 <= content_end(c) && #[trigger] entry_at(v0, c, o).inode_no
                        != 0) ==> (r matches Err(e) && e.kind == FsErrorKind::NotEmpty) && extends(
                    v0,
                    final(fs).cache.view(),
                )
                &&& spec_file_type(p) == FileType::Directory && p.nlink != 0 && child_known && c.nlink != 0
                    && spec_file_type(c) != FileType::Directory && spec_file_type(c) != FileType::Unknown
                    && unlink_room(*old(fs), *self, *child, name.spec_str().spec_bytes()) ==> r is Ok
            }),
            links_apart(*old(fs), *self, *child) && spec_file_type(child.raw(old(fs).cache.view()))
                != FileType::Directory ==> (r is Ok ==> ({
                let v0 = old(fs).cache.view();
                let v = final(fs).cache.view();
                &&& child.raw(v) == (RawINode { nlink: (child.raw(v0).nlink - 1) as u32, ..child.raw(v0) })
                &&& entry_removed(
                    v0,
                    v,
                    self.raw(v0),
                    self.raw(v),
                    child.ino,
                    name.spec_str().spec_bytes(),
                    old(fs).data_bitmap.start_blk_no,
                    old(fs).data_start(),
                    old(fs).superblock.data_blocks as int,
                )
            })),
            links_apart(*old(fs), *child, *self) && spec_file_type(child.raw(old(fs).cache.view()))
                == FileType::Directory ==> (r is Ok ==> exists|f1: EfsFileSystem<D, A>, f2: EfsFileSystem<D, A>|
                #[trigger] dir_unlinked(*old(fs), f1, f2, *final(fs), *self, *child, name.spec_str().spec_bytes())),
    {
        let ghost v0 = fs.cache.view();
        let ghost fs0 = *fs;
        let ghost ready = links_apart(*fs, *self, *child) && spec_file_type(child.raw(v0)) != FileType::Directory;
        let ghost dcase = links_apart(*fs, *child, *self) && spec_file_type(child.raw(v0)) == FileType::Directory;
        let ghost mut fs_up = *fs;
        let ghost mut fs_dot = *fs;
        let parent_raw_inode = match self.read_raw_inode(fs) {
            Ok(n) => n,
            Err(e) => {
                return Err(e);
            },
        };
        proof {
            if stored_inode(v0, self.blk_no, self.blk_offset as int, self.raw(v0)) {
                lemma_stored_extends(v0, fs.cache.view(), self.blk_no, self.blk_offset as int, self.raw(v0));
            }
        }
        if parent_raw_inode.file_type() != FileType::Directory {
            return Err(FsError::from(FsErrorKind::NotADirectory));
        }
        if parent_raw_inode.nlink() == 0 {
            return Err(FsError::from(FsErrorKind::NoSuchFileOrDirectory));
        }
        let child_raw_inode = match child.read_raw_inode(fs) {
            Ok(n) => n,
            Err(e) => {
                return Err(e);
            },
        };
        proof {
            if stored_inode(v0, child.blk_no, child.blk_offset as int, child.raw(v0)) {
                lemma_stored_extends(v0, fs.cache.view(), child.blk_no, child.blk_offset as int, child.raw(v0));
            }
        }
        if child_raw_inode.nlink() == 0 {
            return Err(FsError::from(FsErrorKind::FileSystemCorruption));
        }
        match child_raw_inode.file_type() {
            FileType::Unknown => {
                return Err(FsError::from(FsErrorKind::FileSystemCorruption));
            },
            FileType::File | FileType::Symlink | FileType::Device => {},
            FileType::Directory => {
                proof {
                    if stored_inode(v0, self.blk_no, self.blk_offset as int, self.raw(v0)) && stored_inode(
                        v0,
                        child.blk_no,
                        child.blk_offset as int,
                        child.raw(v0),
                    ) {
                        assert(fs.cache.view() == v0);
                        if all_readable(fs0, *child) {
                            assert forall|o: int| 0 <= o <= child.raw(fs.cache.view()).size && o % 80 == 0 implies #[trigger] dirent_readable(
                                *fs,
                                *child,
                                o,
                            ) by {
                                assert(dirent_readable(fs0, *child, o));
                                lemma_readable_extends(fs0, *fs, *child, o);
                            }
                            assert(all_readable(*fs, *child));
                        }
                    }
                }
                let ghost fs1 = *fs;
                let ghost v1 = fs.cache.view();
                let emp = child.is_empty_dir(fs);
                proof {
                    let c = child.raw(v0);
                    if stored_inode(v0, self.blk_no, self.blk_offset as int, self.raw(v0)) && stored_inode(
                        v0,
                        child.blk_no,
                        child.blk_offset as int,
                        c,
                    ) && c.size >= 160 && all_readable(fs0, *child) && (exists|o: int|
                        160 <= o && o % 80 == 0 && o + 80 <= content_end(c) && #[trigger] entry_at(v0, c, o).inode_no
                            != 0) {
                        assert(all_readable(fs1, *child));
                        let o = choose|o: int|
                            160 <= o && o % 80 == 0 && o + 80 <= content_end(c) && #[trigger] entry_at(v0, c, o).inode_no
                                != 0;
                        assert(dirent_readable(fs0, *child, o));
                        lemma_readable_extends(fs0, *fs, *child, o);
                        lemma_stored_extends(v0, fs.cache.view(), child.blk_no, child.blk_offset as int, c);
                        if emp matches Ok(true) {
                            assert(entry_at(fs.cache.view(), child.raw(fs.cache.view()), o).inode_no == 0);
                        }
                    }
                }
                match emp {
                    Ok(true) => {},
                    Ok(false) => {
                        return Err(FsError::from(FsErrorKind::NotEmpty));
                    },
                    Err(e) => {
                        return Err(e);
                    },
                }
                let ghost fs_e = *fs;
                let dots = "..".as_bytes();
                let dot = ".".as_bytes();
                proof {
                    reveal_strlit(".");
                    vstd::string::is_ascii_spec_bytes(".");
                    reveal_strlit("..");
                    vstd::string::is_ascii_spec_bytes("..");
                    assert(dots@ =~= seq![46u8, 46u8]);
                    assert(dot@ =~= seq![46u8]);
                    if dcase {
                        lemma_links_apart_extends(fs0, *fs, *child, *self);
                        lemma_stored_extends(v0, fs.cache.view(), child.blk_no, child.blk_offset as int, child.raw(v0));
                        lemma_stored_extends(v0, fs.cache.view(), self.blk_no, self.blk_offset as int, self.raw(v0));
                    }
                }
                match child.unlink(fs, self, dots) {
                    Ok(()) => {},
                    Err(e) => {
                        return Err(e);
                    },
                }
                proof {
                    fs_up = *fs;
                    if dcase {
                        lemma_removed_back(
                            v0,
                            fs_e.cache.view(),
                            fs.cache.view(),
                            child.raw(v0),
                            child.raw(fs.cache.view()),
                            self.ino,
                            dots@,
                            fs.data_bitmap.start_blk_no,
                            fs.data_start(),
                            fs.superblock.data_blocks as int,
                        );
                    }
                }
                match child.unlink(fs, child, dot) {
                    Ok(()) => {},
                    Err(e) => {
                        return Err(e);
                    },
                }
                proof {
                    fs_dot = *fs;
                }
            },
        }
        proof {
            if ready {
                lemma_links_apart_extends(*old(fs), *fs, *self, *child);
                lemma_stored_extends(v0, fs.cache.view(), child.blk_no, child.blk_offset as int, child.raw(v0));
                lemma_stored_extends(v0, fs.cache.view(), self.blk_no, self.blk_offset as int, self.raw(v0));
            }
        }
        let bytes = name.as_str().as_bytes();
        proof {
            assert(bytes@ == name.spec_str().spec_bytes());
        }
        let ghost vu = fs.cache.view();
        proof {
            if stored_inode(v0, self.blk_no, self.blk_offset as int, self.raw(v0)) && stored_inode(
                v0,
                child.blk_no,
                child.blk_offset as int,
                child.raw(v0),
            ) && spec_file_type(child.raw(v0)) != FileType::Directory && unlink_room(
                fs0,
                *self,
                *child,
                bytes@,
            ) {
                assert(vu == v0);
                lemma_unlink_room_same(fs0, *fs, *self, *child, bytes@);
            }
        }
        let r = self.unlink(fs, child, bytes);
        proof {
            if dcase && r is Ok {
                assert(dir_unlinked(fs0, fs_up, fs_dot, *fs, *self, *child, name.spec_str().spec_bytes()));
            }
            if ready && r is Ok {
                lemma_removed_back(
                    v0,
                    vu,
                    fs.cache.view(),
                    self.raw(v0),
                    self.raw(fs.cache.view()),
                    child.ino,
                    bytes@,
                    fs.data_bitmap.start_blk_no,
                    fs.data_start(),
                    fs.superblock.data_blocks as int,
                );
            }
        }
        r
    }

    /// Fills `dirents` with the used entries from byte `offset` on and
    /// gives how many content bytes were passed over and how many entries
    /// were filled. Not a directory is `NotADirectory`; an unlinked one is
    /// `NoSuchFileOrDirectory`; an entry of unknown type is `InvalidData`.
    pub fn get_dirents<D: BlockDevice, A: BlockBufferAllocator>(
        &self,
        fs: &mut EfsFileSystem<D, A>,
        offset: u64,
        dirents: &mut [Dirent],
    ) -> (r: Result<(u64, usize), FsError>)
        requires
            self.wf(),
            old(fs).wf(),
        ensures
            fs_same_layout(*old(fs), *final(fs)),
            extends(old(fs).cache.view(), final(fs).cache.view()),
            final(dirents)@.len() == old(dirents)@.len(),
            r matches Ok((consumed, cnt)) ==> cnt <= old(dirents)@.len() && consumed % 80 == 0
                && consumed >= 80 * cnt && (forall|i: int|
                cnt <= i < old(dirents)@.len() ==> #[trigger] final(dirents)@[i] == old(dirents)@[i])
                && (forall|i: int| 0 <= i < cnt ==> (#[trigger] final(dirents)@[i]).name_len <= 64),
            r is Ok ==> spec_file_type(self.raw(final(fs).cache.view())) == FileType::Directory
                && self.raw(final(fs).cache.view()).nlink != 0,
            r matches Ok((consumed, cnt)) ==> ({
                let v = final(fs).cache.view();
                let es = used_entries(v, self.raw(v), offset as int, offset + consumed);
                &&& es.len() == cnt
                &&& forall|i: int| 0 <= i < cnt ==> dirent_of(#[trigger] final(dirents)@[i], es[i])
                &&& cnt < old(dirents)@.len() ==> read_len(self.raw(v).size as int, offset + consumed, 80) == 0
            }),
            r matches Err(e) && e.kind == FsErrorKind::NotADirectory ==> spec_file_type(
                self.raw(final(fs).cache.view()),
            ) != FileType::Directory,
    {
        let inode = match self.read_raw_inode(fs) {
            Ok(n) => n,
            Err(e) => {
                return Err(e);
            },
        };
        if inode.file_type() != FileType::Directory {
            return Err(FsError::from(FsErrorKind::NotADirectory));
        }
        if inode.nlink() == 0 {
            return Err(FsError::from(FsErrorKind::NoSuchFileOrDirectory));
        }
        let ghost n = inode;
        let dlen = dirents.len();
        let mut cur_offset = offset;
        let mut idx: usize = 0;
        loop
            invariant
                self.wf(),
                fs_same_layout(*old(fs), *fs),
                extends(old(fs).cache.view(), fs.cache.view()),
                stored_inode(fs.cache.view(), self.blk_no, self.blk_offset as int, n),
                self.raw(fs.cache.view()) == n,
                spec_file_type(n) == FileType::Directory,
                n.nlink != 0,
                dlen == dirents@.len(),
                dirents@.len() == old(dirents)@.len(),
                idx <= dlen,
                offset <= cur_offset,
                (cur_offset - offset) % 80 == 0,
                cur_offset - offset >= 80 * idx,
                offset >= MAX_FILE_SIZE ==> cur_offset == offset,
                offset < MAX_FILE_SIZE ==> cur_offset <= MAX_FILE_SIZE,
                forall|i: int| idx <= i < dlen ==> #[trigger] dirents@[i] == old(dirents)@[i],
                forall|i: int| 0 <= i < idx ==> (#[trigger] dirents@[i]).name_len <= 64,
                forall|o: int|
                    offset <= o && o + 80 <= cur_offset && (o - offset) % 80 == 0 ==> #[trigger] entry_known(
                        fs.cache.view(),
                        n,
                        o,
                    ),
                idx == used_entries(fs.cache.view(), n, offset as int, cur_offset as int).len(),
                forall|i: int|
                    0 <= i < idx ==> dirent_of(
                        #[trigger] dirents@[i],
                        used_entries(fs.cache.view(), n, offset as int, cur_offset as int)[i],
                    ),
            decreases MAX_FILE_SIZE + 80 - cur_offset,
        {
            if idx == dlen {
                return Ok((cur_offset - offset, idx));
            }
            let ghost vb = fs.cache.view();
            let raw_dirent = match self.read_dirent_at(fs, cur_offset) {
                Ok(d) => d,
                Err(e) => {
                    return Err(e);
                },
            };
            proof {
                lemma_stored_extends(vb, fs.cache.view(), self.blk_no, self.blk_offset as int, n);
                lemma_used_extends(vb, fs.cache.view(), n, offset as int, cur_offset as int);
                assert forall|o: int|
                    offset <= o && o + 80 <= cur_offset && (o - offset) % 80 == 0 implies #[trigger] entry_known(
                        fs.cache.view(),
                        n,
                        o,
                    ) by {
                    assert(entry_known(vb, n, o));
                    lemma_entry_extends(vb, fs.cache.view(), n, o);
                }
            }
            let ghost cur0 = cur_offset as int;
            let ghost prev = used_entries(fs.cache.view(), n, offset as int, cur0);
            match raw_dirent {
                Some(raw_dirent) => {
                    cur_offset = cur_offset + RAW_DIRENT_SIZE;
                    proof {
                        assert(used_entries(fs.cache.view(), n, offset as int, cur_offset as int) == if raw_dirent.inode_no
                            != 0 {
                            prev.push(raw_dirent)
                        } else {
                            prev
                        });
                    }
                    if !raw_dirent.is_unused() {
                        let mut name = [0u8; 256];
                        let mut i: usize = 0;
                        while i < 64
                            invariant
                                i <= 64,
                                forall|k: int| 0 <= k < i ==> #[trigger] name@[k] == raw_dirent.name@[k],
                                forall|k: int| i <= k < 256 ==> #[trigger] name@[k] == 0,
                            decreases 64 - i,
                        {
                            name[i] = raw_dirent.name[i];
                            i += 1;
                        }
                        let typ = match raw_dirent.typ.to_fcntl() {
                            Ok(t) => t,
                            Err(e) => {
                                return Err(e);
                            },
                        };
                        let out = Dirent { name, name_len: raw_dirent.name_len as usize, inode_no: raw_dirent.inode_no, typ };
                        proof {
                            assert(dirent_of(out, raw_dirent));
                        }
                        dirents[idx] = out;
                        idx += 1;
                    }
                },
                None => {
                    return Ok((cur_offset - offset, idx));
                },
            }
        }
    }
}

} // verus!
