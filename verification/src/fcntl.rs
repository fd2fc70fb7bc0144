//! The file metadata that the kernel and its file systems exchange: file
//! types, `stat` records and directory entries.

use vstd::prelude::*;

verus! {

/// The type of a file.
#[derive(Debug, Clone, Copy, PartialEq, Eq, Structural)]
pub enum FileType {
    RegularFile,
    Directory,
    Device,
    Symlink,
}

/// What `stat` tells of a file.
#[derive(Debug, Clone, Copy, PartialEq, Eq, Structural)]
pub struct Stat {
    pub ino: u64,
    pub dev_no: u32,
    pub typ: FileType,
    pub size: u64,
    pub nlink: u32,
}

/// A directory entry as the kernel hands it to programs.
#[derive(Clone, Copy)]
pub struct Dirent {
    pub name: [u8; 256],
    pub name_len: usize,
    pub inode_no: u64,
    pub typ: FileType,
}

} // verus!
