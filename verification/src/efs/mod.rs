//! The "easy file system": a block-based file system with inode and data
//! bitmaps, inodes with direct, indirect and doubly indirect block
//! pointers, and directories made of fixed-size entries.

pub mod consts;
pub mod dev;
pub mod buffer;
pub mod config;

pub mod cache;
pub mod bitmap;
pub mod superblock;
pub mod inode;
pub mod fs;
pub mod file;
pub mod extent;
pub mod freeing;
pub mod dirent;
pub mod node;
pub mod dir;
