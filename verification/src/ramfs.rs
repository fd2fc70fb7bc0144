//! Files held in memory: their content is a byte vector that grows on
//! writes past its end.

use vstd::prelude::*;
use crate::errors::{FsError, FsErrorKind, opt_str_view};
use crate::fcntl::{Dirent, FileType, Stat};
use crate::kernel::procfs::{make_dirent, dirent_is, listed};

verus! {

/// The content after writing `data` at `offset` (the file grows as needed).
pub open spec fn spec_ram_write(content: Seq<u8>, offset: int, data: Seq<u8>) -> Seq<u8> {
    let end = offset + data.len();
    if end > content.len() {
        content.subrange(0, offset) + data
    } else {
        content.subrange(0, offset) + data + content.subrange(end, content.len() as int)
    }
}

/// The bytes a read of at most `n` bytes at `offset` gives.
pub open spec fn spec_ram_read(content: Seq<u8>, offset: int, n: int) -> Seq<u8> {
    if offset >= content.len() {
        Seq::empty()
    } else if content.len() - offset < n {
        content.subrange(offset, content.len() as int)
    } else {
        content.subrange(offset, offset + n)
    }
}

/// The message of the error for a write that starts past the end.
pub open spec fn write_offset_msg() -> Seq<char> {
    "ram file: write offset out of file."@
}

/// A regular file in memory.
pub struct RamFile {
    pub inode_no: u64,
    pub content: Vec<u8>,
}

impl RamFile {
    /// An empty file with inode number `inode_no`.
    pub fn new(inode_no: u64) -> (r: Self)
        ensures
            r.inode_no == inode_no,
            r.content@.len() == 0,
    {
        RamFile { inode_no, content: Vec::new() }
    }

    /// Reads from `offset` into `buf`, as many bytes as fit and as the file
    /// holds; nothing at or past the end.
    pub fn read(&self, offset: u64, buf: &mut [u8]) -> (r: Result<u64, FsError>)
        ensures
            r is Ok,
            final(buf)@.len() == old(buf)@.len(),
            ({
                let got = spec_ram_read(self.content@, offset as int, old(buf)@.len() as int);
                &&& r->Ok_0 == got.len()
                &&& final(buf)@.subrange(0, got.len() as int) == got
                &&& final(buf)@.subrange(got.len() as int, old(buf)@.len() as int) == old(
                    buf,
                )@.subrange(got.len() as int, old(buf)@.len() as int)
            }),
    {
        let len = self.content.len();
        if offset >= len as u64 {
            proof {
                assert(final(buf)@.subrange(0, 0) =~= Seq::<u8>::empty());
                assert(final(buf)@.subrange(0, old(buf)@.len() as int) =~= old(buf)@);
            }
            return Ok(0);
        }
        let off = offset as usize;
        let avail = len - off;
        let n = if avail < buf.len() {
            avail
        } else {
            buf.len()
        };
        let mut i: usize = 0;
        while i < n
            invariant
                len == self.content@.len(),
                off + n <= len,
                n <= buf@.len(),
                buf@.len() == old(buf)@.len(),
                i <= n,
                forall|k: int| 0 <= k < i ==> buf@[k] == self.content@[off + k],
                forall|k: int| n <= k < buf@.len() ==> buf@[k] == old(buf)@[k],
            decreases n - i,
        {
            buf[i] = self.content[off + i];
            i += 1;
        }
        proof {
            let got = spec_ram_read(self.content@, offset as int, old(buf)@.len() as int);
            assert(got =~= self.content@.subrange(off as int, off + n));
            assert(buf@.subrange(0, n as int) =~= got);
            assert(buf@.subrange(n as int, old(buf)@.len() as int) =~= old(buf)@.subrange(
                n as int,
                old(buf)@.len() as int,
            ));
        }
        Ok(n as u64)
    }

    /// Writes `buf` at `offset`, growing the file as needed; an offset past
    /// the end is refused.
    pub fn write(&mut self, offset: u64, buf: &[u8]) -> (r: Result<u64, FsError>)
        requires
            offset + buf@.len() <= usize::MAX,
        ensures
            offset > old(self).content@.len() ==> r is Err && r->Err_0.kind
                == FsErrorKind::InvalidArgument && opt_str_view(r->Err_0.msg) == Some(
                write_offset_msg(),
            ) && final(self).content@ == old(self).content@,
            offset <= old(self).content@.len() ==> r is Ok && r->Ok_0 == buf@.len()
                && final(self).content@ == spec_ram_write(
                old(self).content@,
                offset as int,
                buf@,
            ),
            final(self).inode_no == old(self).inode_no,
    {
        let len = self.content.len();
        if offset > len as u64 {
            return Err(
                FsError::with_fmt_args(
                    FsErrorKind::InvalidArgument,
                    "ram file: write offset out of file.",
                ),
            );
        }
        let off = offset as usize;
        let new_len = off + buf.len();
        if new_len > len {
            self.content.resize(new_len, 0);
        }
        let mut i: usize = 0;
        while i < buf.len()
            invariant
                off + buf@.len() <= self.content@.len(),
                self.content@.len() == if new_len > len {
                    new_len as int
                } else {
                    len as int
                },
                len == old(self).content@.len(),
                new_len == off + buf@.len(),
                i <= buf@.len(),
                forall|k: int| 0 <= k < off ==> self.content@[k] == old(self).content@[k],
                forall|k: int| 0 <= k < i ==> self.content@[off + k] == buf@[k],
                forall|k: int|
                    new_len <= k < self.content@.len() ==> self.content@[k] == old(self).content@[k],
                self.inode_no == old(self).inode_no,
            decreases buf@.len() - i,
        {
            self.content.set(off + i, buf[i]);
            i += 1;
        }
        proof {
            assert(self.content@ =~= spec_ram_write(old(self).content@, offset as int, buf@));
        }
        Ok(buf.len() as u64)
    }

    /// The file's `stat` record: a regular file with one link, sized by
    /// its content.
    pub fn metadata(&self) -> (r: Result<Stat, FsError>)
        ensures
            r == Ok::<Stat, FsError>(
                Stat {
                    dev_no: 0,
                    ino: self.inode_no,
                    typ: FileType::RegularFile,
                    size: self.content@.len() as u64,
                    nlink: 1,
                },
            ),
    {
        Ok(
            Stat {
                dev_no: 0,
                ino: self.inode_no,
                typ: FileType::RegularFile,
                size: self.content.len() as u64,
                nlink: 1,
            },
        )
    }

    /// Cuts the file to `new_size` bytes and returns the old size; growing
    /// is refused.
    pub fn truncate(&mut self, new_size: u64) -> (r: Result<u64, FsError>)
        ensures
            new_size > old(self).content@.len() ==> r is Err && r->Err_0.kind
                == FsErrorKind::InvalidArgument && final(self).content@ == old(self).content@,
            new_size <= old(self).content@.len() ==> r == Ok::<u64, FsError>(
                old(self).content@.len() as u64,
            ) && final(self).content@ == old(self).content@.subrange(0, new_size as int),
            final(self).inode_no == old(self).inode_no,
    {
        let len = self.content.len();
        if new_size > len as u64 {
            return Err(FsError::from(FsErrorKind::InvalidArgument));
        }
        self.content.truncate(new_size as usize);
        Ok(len as u64)
    }
}

/// Reading back what was just written at an offset within the file gives
/// the written bytes, and the bytes before the offset stay as they were.
pub proof fn lemma_ram_read_after_write(content: Seq<u8>, offset: int, data: Seq<u8>)
    requires
        0 <= offset <= content.len(),
    ensures
        spec_ram_read(spec_ram_write(content, offset, data), offset, data.len() as int) =~= data,
        spec_ram_write(content, offset, data).subrange(0, offset) =~= content.subrange(0, offset),
        spec_ram_write(content, offset, data).len() == if offset + data.len() > content.len() {
            offset + data.len()
        } else {
            content.len() as int
        },
{
}


/// A copy of `s`.
fn copy_bytes(s: &[u8]) -> (r: Vec<u8>)
    ensures
        r@ == s@,
{
    let mut v: Vec<u8> = Vec::new();
    let mut i: usize = 0;
    while i < s.len()
        invariant
            i <= s@.len(),
            v@ == s@.subrange(0, i as int),
        decreases s@.len() - i,
    {
        v.push(s[i]);
        i += 1;
        proof {
            assert(v@ =~= s@.subrange(0, i as int));
        }
    }
    proof {
        assert(s@.subrange(0, s@.len() as int) =~= s@);
    }
    v
}

/// A directory in memory: its own inode number, whether it refuses
/// changes, and its children by name, each with an inode number and a
/// type, in the order they were made.
pub struct RamDirectory {
    inode_no: u64,
    read_only: bool,
    names: Vec<Vec<u8>>,
    inos: Vec<u64>,
    types: Vec<FileType>,
}

/// What a name is looked up to in a directory.
#[derive(Debug, Clone, Copy, PartialEq, Eq, Structural)]
pub enum RamLookup {
    /// `.`: the directory itself.
    This,
    /// `..`: its parent.
    Parent,
    /// A child, by inode number and type.
    Child(u64, FileType),
}

impl RamDirectory {
    /// The children's names, in order.
    pub closed spec fn names(&self) -> Seq<Seq<u8>> {
        self.names@.map_values(|n: Vec<u8>| n@)
    }

    /// The children: each name to its inode number and type.
    pub closed spec fn children(&self) -> Map<Seq<u8>, (u64, FileType)> {
        Map::new(
            |n: Seq<u8>| self.names().contains(n),
            |n: Seq<u8>| {
                let i = choose|i: int| 0 <= i < self.names().len() && self.names()[i] == n;
                (self.inos@[i], self.types@[i])
            },
        )
    }

    /// The directory's inode number.
    pub closed spec fn ino(&self) -> u64 {
        self.inode_no
    }

    /// The directory's inode number.
    pub fn inode_no(&self) -> (r: u64)
        ensures
            r == self.ino(),
    {
        self.inode_no
    }

    /// Whether the directory refuses changes.
    pub closed spec fn is_ro(&self) -> bool {
        self.read_only
    }

    /// The tables agree in length and no name occurs twice.
    pub closed spec fn wf(&self) -> bool {
        &&& self.names@.len() == self.inos@.len()
        &&& self.names@.len() == self.types@.len()
        &&& forall|i: int, j: int|
            0 <= i < j < self.names@.len() ==> #[trigger] self.names@[i]@ != #[trigger] self.names@[j]@
    }

    /// An empty, writable directory with inode number `inode_no`.
    pub fn new(inode_no: u64) -> (r: Self)
        ensures
            r.wf(),
            r.ino() == inode_no,
            !r.is_ro(),
            r.names().len() == 0,
            r.children() == Map::<Seq<u8>, (u64, FileType)>::empty(),
    {
        let r = RamDirectory { inode_no, read_only: false, names: Vec::new(), inos: Vec::new(), types: Vec::new() };
        proof {
            assert(r.names() =~= Seq::<Seq<u8>>::empty());
            assert(r.children() =~= Map::<Seq<u8>, (u64, FileType)>::empty());
        }
        r
    }

    /// Makes the directory refuse changes from now on.
    pub fn make_read_only(&mut self)
        requires
            old(self).wf(),
        ensures
            final(self).wf(),
            final(self).is_ro(),
            final(self).children() == old(self).children(),
            final(self).names() == old(self).names(),
    {
        self.read_only = true;
    }

    /// Whether the directory refuses changes.
    pub fn is_read_only(&self) -> (r: bool)
        ensures
            r == self.is_ro(),
    {
        self.read_only
    }

    /// The index of the child named `name`, if any.
    fn find(&self, name: &[u8]) -> (r: Option<usize>)
        requires
            self.wf(),
        ensures
            r matches Some(i) ==> i < self.names@.len() && self.names@[i as int]@ == name@,
            r is None ==> !self.names().contains(name@),
    {
        let mut i: usize = 0;
        while i < self.names.len()
            invariant
                self.wf(),
                i <= self.names@.len(),
                forall|j: int| 0 <= j < i ==> self.names@[j]@ != name@,
            decreases self.names@.len() - i,
        {
            if crate::efs::dir::bytes_eq(self.names[i].as_slice(), name) {
                return Some(i);
            }
            i += 1;
        }
        proof {
            if self.names().contains(name@) {
                let j = choose|j: int| 0 <= j < self.names().len() && self.names()[j] == name@;
                assert(self.names@[j]@ == name@);
            }
        }
        None
    }

    /// The child at index `i` is the one named by its name.
    proof fn lemma_child_at(&self, i: int)
        requires
            self.wf(),
            0 <= i < self.names@.len(),
        ensures
            self.children().dom().contains(self.names@[i]@),
            self.children()[self.names@[i]@] == (self.inos@[i], self.types@[i]),
    {
        let n = self.names@[i]@;
        assert(self.names()[i] == n);
        let k = choose|k: int| 0 <= k < self.names().len() && self.names()[k] == n;
        if k != i {
            if k < i {
                assert(self.names@[k]@ != self.names@[i]@);
            } else {
                assert(self.names@[i]@ != self.names@[k]@);
            }
        }
    }

    /// The size a directory reports: its children and `.` and `..`.
    pub fn size(&self) -> (r: u64)
        requires
            self.wf(),
            self.names().len() + 2 <= u64::MAX,
        ensures
            r == self.names().len() + 2,
    {
        self.names.len() as u64 + 2
    }

    /// Makes a child named `name` of type `typ` with inode number
    /// `new_ino`. A read-only directory is `PermissionDenied`; a name in use
    /// is `AlreadyExists`; a device or symlink is `Unsupported`.
    pub fn create(&mut self, name: &[u8], typ: FileType, new_ino: u64) -> (r: Result<u64, FsError>)
        requires
            old(self).wf(),
        ensures
            final(self).wf(),
            final(self).is_ro() == old(self).is_ro(),
            old(self).is_ro() ==> (r matches Err(e) && e.kind == FsErrorKind::PermissionDenied),
            !old(self).is_ro() && old(self).children().dom().contains(name@) ==> (r matches Err(e) && e.kind
                == FsErrorKind::AlreadyExists),
            !old(self).is_ro() && !old(self).children().dom().contains(name@) && (typ == FileType::Device || typ
                == FileType::Symlink) ==> (r matches Err(e) && e.kind == FsErrorKind::Unsupported),
            !old(self).is_ro() && !old(self).children().dom().contains(name@) && (typ == FileType::Directory || typ
                == FileType::RegularFile) ==> r == Ok::<u64, FsError>(new_ino),
            r is Ok ==> final(self).children() == old(self).children().insert(name@, (new_ino, typ))
                && final(self).names() == old(self).names().push(name@),
            r is Err ==> final(self).children() == old(self).children() && final(self).names() == old(self).names(),
    {
        if self.read_only {
            return Err(FsError::from(FsErrorKind::PermissionDenied));
        }
        match self.find(name) {
            Some(i) => {
                proof {
                    assert(self.names()[i as int] == name@);
                    assert(self.names().contains(name@));
                }
                return Err(FsError::from(FsErrorKind::AlreadyExists));
            },
            None => {},
        }
        match typ {
            FileType::Device | FileType::Symlink => {
                return Err(FsError::from(FsErrorKind::Unsupported));
            },
            _ => {},
        }
        let ghost old_names = self.names();
        let ghost old_children = self.children();
        self.names.push(copy_bytes(name));
        self.inos.push(new_ino);
        self.types.push(typ);
        proof {
            assert(self.names() =~= old_names.push(name@));
            assert forall|i: int, j: int| 0 <= i < j < self.names@.len() implies #[trigger] self.names@[i]@
                != #[trigger] self.names@[j]@ by {
                if j == self.names@.len() - 1 {
                    assert(old_names[i] == self.names@[i]@);
                }
            }
            assert forall|n: Seq<u8>| #[trigger] self.children().dom().contains(n) == old_children.insert(name@, (new_ino, typ)).dom().contains(n) by {
                if self.names().contains(n) {
                    let k = choose|k: int| 0 <= k < self.names().len() && self.names()[k] == n;
                    if k < old_names.len() {
                        assert(old_names[k] == n);
                    }
                }
                if old_names.contains(n) {
                    let k = choose|k: int| 0 <= k < old_names.len() && old_names[k] == n;
                    assert(self.names()[k] == n);
                }
                if n == name@ {
                    assert(self.names()[old_names.len() as int] == n);
                }
            }
            assert forall|n: Seq<u8>| self.children().dom().contains(n) implies #[trigger] self.children()[n]
                == old_children.insert(name@, (new_ino, typ))[n] by {
                let i = choose|i: int| 0 <= i < self.names().len() && self.names()[i] == n;
                self.lemma_child_at(i);
                if i < old_names.len() {
                    old(self).lemma_child_at(i);
                }
            }
            assert(self.children() =~= old_children.insert(name@, (new_ino, typ)));
        }
        Ok(new_ino)
    }

    /// Removes the child named `name`. A read-only directory is
    /// `PermissionDenied`; no such child is `NoSuchFileOrDirectory`.
    pub fn unlink(&mut self, name: &[u8]) -> (r: Result<(), FsError>)
        requires
            old(self).wf(),
        ensures
            final(self).wf(),
            final(self).is_ro() == old(self).is_ro(),
            old(self).is_ro() ==> (r matches Err(e) && e.kind == FsErrorKind::PermissionDenied),
            !old(self).is_ro() && !old(self).children().dom().contains(name@) ==> (r matches Err(e) && e.kind
                == FsErrorKind::NoSuchFileOrDirectory),
            !old(self).is_ro() && old(self).children().dom().contains(name@) ==> r is Ok,
            r is Ok ==> final(self).children() == old(self).children().remove(name@),
            r is Err ==> final(self).children() == old(self).children() && final(self).names() == old(self).names(),
    {
        if self.read_only {
            return Err(FsError::from(FsErrorKind::PermissionDenied));
        }
        match self.find(name) {
            None => {
                proof {
                    assert(!self.children().dom().contains(name@));
                }
                Err(FsError::from(FsErrorKind::NoSuchFileOrDirectory))
            },
            Some(i) => {
                let ghost old_children = self.children();
                proof {
                    assert(self.names()[i as int] == name@);
                    assert(old_children.dom().contains(name@));
                }
                let ghost on = self.names@;
                let ghost oi = self.inos@;
                let ghost ot = self.types@;
                self.names.remove(i);
                self.inos.remove(i);
                self.types.remove(i);
                proof {
                    assert forall|a: int, b: int| 0 <= a < b < self.names@.len() implies #[trigger] self.names@[a]@
                        != #[trigger] self.names@[b]@ by {
                        let a0 = if a < i { a } else { a + 1 };
                        let b0 = if b < i { b } else { b + 1 };
                        assert(self.names@[a] == on[a0]);
                        assert(self.names@[b] == on[b0]);
                    }
                    assert forall|n: Seq<u8>| #[trigger] self.children().dom().contains(n) == old_children.remove(name@).dom().contains(n) by {
                        if self.names().contains(n) {
                            let k = choose|k: int| 0 <= k < self.names().len() && self.names()[k] == n;
                            let k0 = if k < i { k } else { k + 1 };
                            assert(self.names@[k] == on[k0]);
                            assert(old(self).names()[k0] == n);
                            assert(n != name@) by {
                                if k0 != i {
                                    if k0 < i {
                                        assert(on[k0]@ != on[i as int]@);
                                    } else {
                                        assert(on[i as int]@ != on[k0]@);
                                    }
                                }
                            }
                        }
                        if old_children.remove(name@).dom().contains(n) {
                            let k0 = choose|k: int| 0 <= k < old(self).names().len() && old(self).names()[k] == n;
                            assert(k0 != i);
                            let k = if k0 < i { k0 } else { k0 - 1 };
                            assert(self.names()[k] == n);
                        }
                    }
                    assert forall|n: Seq<u8>| self.children().dom().contains(n) implies #[trigger] self.children()[n]
                        == old_children.remove(name@)[n] by {
                        let k = choose|k: int| 0 <= k < self.names().len() && self.names()[k] == n;
                        self.lemma_child_at(k);
                        let k0 = if k < i { k } else { k + 1 };
                        assert(self.names@[k] == on[k0] && self.inos@[k] == oi[k0] && self.types@[k] == ot[k0]);
                        old(self).lemma_child_at(k0);
                    }
                    assert(self.children() =~= old_children.remove(name@));
                }
                Ok(())
            },
        }
    }

    /// What `name` names: `.` the directory, `..` its parent, or a child.
    pub fn lookup(&self, name: &[u8]) -> (r: Option<RamLookup>)
        requires
            self.wf(),
        ensures
            name@ == seq![46u8] ==> r == Some(RamLookup::This),
            name@ == seq![46u8, 46u8] ==> r == Some(RamLookup::Parent),
            name@ != seq![46u8] && name@ != seq![46u8, 46u8] ==> r == (if self.children().dom().contains(name@) {
                Some(RamLookup::Child(self.children()[name@].0, self.children()[name@].1))
            } else {
                None
            }),
    {
        if name.len() == 1 && name[0] == 46 {
            proof {
                assert(name@ =~= seq![46u8]);
            }
            return Some(RamLookup::This);
        }
        if name.len() == 2 && name[0] == 46 && name[1] == 46 {
            proof {
                assert(name@ =~= seq![46u8, 46u8]);
            }
            return Some(RamLookup::Parent);
        }
        match self.find(name) {
            Some(i) => {
                proof {
                    self.lemma_child_at(i as int);
                }
                Some(RamLookup::Child(self.inos[i], self.types[i]))
            },
            None => None,
        }
    }

    /// What entry `k` of the directory's listing names: `.` (the directory),
    /// `..` (the parent, or the directory itself at the root), then the
    /// children in the order they were made.
    pub closed spec fn listing_entry(&self, parent_ino: Option<u64>, k: int) -> (Seq<u8>, FileType, u64) {
        if k == 0 {
            (seq![46u8], FileType::Directory, self.inode_no)
        } else if k == 1 {
            (seq![46u8, 46u8], FileType::Directory, match parent_ino {
                Some(p) => p,
                None => self.inode_no,
            })
        } else {
            (self.names()[k - 2], self.types@[k - 2], self.inos@[k - 2])
        }
    }

    /// The listing of a directory is `.` (the directory itself), `..` (the
    /// parent, or the directory itself at the root), and then each child
    /// once, under its name, with the inode number and the type it was
    /// made with.
    pub proof fn lemma_listing_names_children(&self, parent_ino: Option<u64>, k: int)
        requires
            self.wf(),
            0 <= k < 2 + self.names().len(),
        ensures
            k == 0 ==> self.listing_entry(parent_ino, k) == (seq![46u8], FileType::Directory, self.ino()),
            k == 1 ==> self.listing_entry(parent_ino, k) == (seq![46u8, 46u8], FileType::Directory, match parent_ino {
                Some(p) => p,
                None => self.ino(),
            }),
            k >= 2 ==> ({
                let e = self.listing_entry(parent_ino, k);
                &&& e.0 == self.names()[k - 2]
                &&& self.children().dom().contains(e.0)
                &&& self.children()[e.0] == (e.2, e.1)
            }),
            forall|j: int|
                2 <= j < 2 + self.names().len() && j != k && k >= 2 ==> #[trigger] self.listing_entry(parent_ino, j).0
                    != self.listing_entry(parent_ino, k).0,
    {
        if k >= 2 {
            self.lemma_child_at(k - 2);
        }
        assert forall|j: int|
            2 <= j < 2 + self.names().len() && j != k && k >= 2 implies #[trigger] self.listing_entry(parent_ino, j).0
                != self.listing_entry(parent_ino, k).0 by {
            if j < k {
                assert(self.names@[j - 2]@ != self.names@[k - 2]@);
            } else {
                assert(self.names@[k - 2]@ != self.names@[j - 2]@);
            }
        }
    }

    /// Lists the directory from entry `offset` on into at most `n` entries,
    /// and gives how far the listing moved on.
    pub fn get_dirents(&self, offset: u64, parent_ino: Option<u64>, n: usize) -> (r: (Vec<Dirent>, u64))
        requires
            self.wf(),
            forall|i: int| 0 <= i < self.names().len() ==> (#[trigger] self.names()[i]).len() <= 256,
            2 + self.names().len() <= u64::MAX,
        ensures
            r.0@.len() == listed(2 + self.names().len() as int, offset as int, n as int),
            r.1 == r.0@.len(),
            forall|k: int| 0 <= k < r.0@.len() ==> dirent_is(#[trigger] r.0@[k], self.listing_entry(parent_ino, offset + k)),
            forall|k: int|
                0 <= k < r.0@.len() && offset + k >= 2 ==> {
                    let name = self.names()[offset + k - 2];
                    &&& self.children().dom().contains(name)
                    &&& dirent_is(#[trigger] r.0@[k], (name, self.children()[name].1, self.children()[name].0))
                },
    {
        let total: u64 = 2 + self.names.len() as u64;
        let mut out: Vec<Dirent> = Vec::new();
        let mut cur: u64 = offset;
        while out.len() < n && cur < total
            invariant
                self.wf(),
                total == 2 + self.names().len(),
                forall|i: int| 0 <= i < self.names().len() ==> (#[trigger] self.names()[i]).len() <= 256,
                offset <= cur,
                cur - offset == out@.len(),
                out@.len() <= n,
                offset < total ==> cur <= total,
                offset >= total ==> cur == offset,
                forall|k: int| 0 <= k < out@.len() ==> dirent_is(#[trigger] out@[k], self.listing_entry(parent_ino, offset + k)),
            decreases total - cur,
        {
            let d = if cur == 0 {
                let dot: Vec<u8> = vec![46u8];
                proof {
                    assert(dot@ =~= seq![46u8]);
                }
                make_dirent(dot.as_slice(), FileType::Directory, self.inode_no)
            } else if cur == 1 {
                let dotdot: Vec<u8> = vec![46u8, 46u8];
                proof {
                    assert(dotdot@ =~= seq![46u8, 46u8]);
                }
                let p = match parent_ino {
                    Some(p) => p,
                    None => self.inode_no,
                };
                make_dirent(dotdot.as_slice(), FileType::Directory, p)
            } else {
                let len = self.names.len();
                assert(cur - 2 < len);
                let i = (cur - 2) as usize;
                proof {
                    assert(i as int == cur - 2);
                    assert(i < self.names@.len());
                    assert(self.names()[i as int] == self.names@[i as int]@);
                }
                let d = make_dirent(self.names[i].as_slice(), self.types[i], self.inos[i]);
                proof {
                    let e = self.listing_entry(parent_ino, cur as int);
                    assert(e == (self.names()[i as int], self.types@[i as int], self.inos@[i as int]));
                }
                d
            };
            proof {
                assert(offset + out@.len() == cur);
                assert(dirent_is(d, self.listing_entry(parent_ino, cur as int)));
            }
            out.push(d);
            cur = cur + 1;
        }
        proof {
            assert forall|k: int| 0 <= k < out@.len() && offset + k >= 2 implies {
                let name = self.names()[offset + k - 2];
                &&& self.children().dom().contains(name)
                &&& dirent_is(#[trigger] out@[k], (name, self.children()[name].1, self.children()[name].0))
            } by {
                self.lemma_listing_names_children(parent_ino, offset + k);
            }
        }
        let moved = cur - offset;
        (out, moved)
    }
}
} // verus!
