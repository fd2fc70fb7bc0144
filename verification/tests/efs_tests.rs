use std::cell::RefCell;
use std::collections::HashMap;

use redwing::efs::bitmap::{BitmapBlocks, BLOCK_BITS};
use redwing::efs::buffer::DefaultBlockBufferAllocator;
use redwing::efs::cache::BlockCacheManager;
use redwing::efs::config::FsConfig;
use redwing::efs::consts::{BLOCK_SIZE, NUM_DIRECT_DATA_BLKS, ROOT_INODE_NO};
use redwing::efs::dev::BlockDevice;
use redwing::efs::dirent::RawDirent;
use redwing::efs::fs::EfsFileSystem;
use redwing::efs::inode::{FileType, RawINode};
use redwing::efs::node::INode;
use redwing::efs::superblock::RawSuperBlock;
use redwing::errors::FsErrorKind;
use redwing::name::{ValidFileName, ValidLookupName};

#[derive(Default)]
struct RamBlockDevice {
    blocks: RefCell<HashMap<u64, Vec<u8>>>,
}

impl RamBlockDevice {
    fn new() -> Self {
        Self::default()
    }
}

impl BlockDevice for RamBlockDevice {
    fn read_block(&self, blk_no: u64, buf: &mut [u8]) -> Result<(), &'static str> {
        let mut blocks = self.blocks.borrow_mut();
        if let Some(block) = blocks.get(&blk_no) {
            buf.copy_from_slice(block);
        } else {
            blocks.insert(blk_no, vec![0; buf.len()]);
            buf.fill(0);
        }
        Ok(())
    }

    fn write_block(&self, blk_no: u64, buf: &[u8]) -> Result<(), &'static str> {
        let mut blocks = self.blocks.borrow_mut();
        if let Some(block) = blocks.get_mut(&blk_no) {
            block.copy_from_slice(buf);
        } else {
            blocks.insert(blk_no, Vec::from(buf));
        }
        Ok(())
    }
}

struct FailingDevice;

impl BlockDevice for FailingDevice {
    fn read_block(&self, _blk_no: u64, _buf: &mut [u8]) -> Result<(), &'static str> {
        Err("device gone")
    }

    fn write_block(&self, _blk_no: u64, _buf: &[u8]) -> Result<(), &'static str> {
        Err("device gone")
    }
}

type Cache = BlockCacheManager<RamBlockDevice, DefaultBlockBufferAllocator>;
type Fs = EfsFileSystem<RamBlockDevice, DefaultBlockBufferAllocator>;

fn mem_cache() -> Cache {
    BlockCacheManager::new(RamBlockDevice::new(), DefaultBlockBufferAllocator {})
}

fn ram_fs() -> Fs {
    EfsFileSystem::make(
        RamBlockDevice::new(),
        RawSuperBlock::new(BLOCK_SIZE * 4000, 1024 * 16),
        FsConfig::new(),
    )
    .unwrap()
}

fn rand_bytes(len: usize) -> Vec<u8> {
    let mut state: u64 = 0x2545_f491_4f6c_dd1d;
    let mut out = Vec::with_capacity(len);
    for _ in 0..len {
        state ^= state << 13;
        state ^= state >> 7;
        state ^= state << 17;
        out.push((state >> 24) as u8);
    }
    out
}

fn zero_bytes(len: usize) -> Vec<u8> {
    vec![0; len]
}

fn create_file(fs: &mut Fs, dir: &INode, name: &str) -> INode {
    let ino = dir.create_file(fs, ValidFileName::try_from(name).unwrap()).unwrap();
    INode::new(fs, ino)
}

fn create_dir(fs: &mut Fs, dir: &INode, name: &str) -> INode {
    let ino = dir.mkdir(fs, ValidFileName::try_from(name).unwrap()).unwrap();
    INode::new(fs, ino)
}

fn lookup(fs: &mut Fs, dir: &INode, name: &str) -> Option<RawDirent> {
    dir.lookup(fs, ValidLookupName::try_from(name).unwrap()).unwrap()
}

#[test]
fn test_basic_operations() {
    let mut cache = mem_cache();
    let bitmap = BitmapBlocks::new(15, 32);

    assert_eq!(bitmap.get_bit(&mut cache, 0).unwrap(), false);
    assert_eq!(bitmap.alloc_bit(&mut cache).unwrap(), Some(0));
    assert_eq!(bitmap.get_bit(&mut cache, 0).unwrap(), true);

    bitmap.clear_bit(&mut cache, 0).unwrap();
    assert_eq!(bitmap.get_bit(&mut cache, 0).unwrap(), false);
}

#[test]
fn test_full_allocation() {
    let mut cache = mem_cache();
    let bitmap = BitmapBlocks::new(15, BLOCK_BITS * 2);

    for i in 0..BLOCK_BITS * 2 {
        assert_eq!(bitmap.alloc_bit(&mut cache).unwrap(), Some(i));
        assert_eq!(bitmap.count_allocated_bits(&mut cache).unwrap(), i + 1);
    }
    assert_eq!(bitmap.alloc_bit(&mut cache).unwrap(), None);

    for i in 0..(BLOCK_BITS * 2) {
        assert_eq!(bitmap.get_bit(&mut cache, i).unwrap(), true);
    }
}

#[test]
fn test_bounds_checks() {
    let mut cache = mem_cache();
    let bitmap = BitmapBlocks::new(15, 4);

    assert_eq!(bitmap.get_bit(&mut cache, 4).unwrap_err().kind, FsErrorKind::InvalidArgument);
    assert_eq!(bitmap.clear_bit(&mut cache, 4).unwrap_err().kind, FsErrorKind::InvalidArgument);

    for _ in 0..bitmap.bits_len() {
        bitmap.alloc_bit(&mut cache).unwrap();
    }

    assert_eq!(bitmap.alloc_bit(&mut cache).unwrap(), None);
}

#[test]
fn bitmap_out_of_bound_message() {
    let mut cache = mem_cache();
    let bitmap = BitmapBlocks::new(3, 10);
    let err = bitmap.set_bit(&mut cache, 10).unwrap_err();
    assert_eq!(err.kind, FsErrorKind::InvalidArgument);
    assert_eq!(err.msg(), Some("index out of bound for bitmap."));
}

#[test]
fn bitmap_alloc_takes_lowest_clear_bit() {
    let mut cache = mem_cache();
    let bitmap = BitmapBlocks::new(7, 100);
    for i in 0..10 {
        bitmap.set_bit(&mut cache, i).unwrap();
    }
    bitmap.clear_bit(&mut cache, 3).unwrap();
    assert_eq!(bitmap.alloc_bit(&mut cache).unwrap(), Some(3));
    assert_eq!(bitmap.alloc_bit(&mut cache).unwrap(), Some(10));
    assert_eq!(bitmap.count_allocated_bits(&mut cache).unwrap(), 11);
}

#[test]
fn bitmap_locate_bit_pos() {
    let bitmap = BitmapBlocks::new(5, BLOCK_BITS * 3);
    assert_eq!(bitmap.locate_bit_pos(0), (5, 0, 0));
    assert_eq!(bitmap.locate_bit_pos(65), (5, 1, 1));
    assert_eq!(bitmap.locate_bit_pos(BLOCK_BITS + 130), (6, 2, 2));
    assert_eq!(bitmap.end_blk_no, 8);
}

#[test]
fn cache_reports_device_failure() {
    let mut cache = BlockCacheManager::new(FailingDevice, DefaultBlockBufferAllocator {});
    let err = cache.get_block(3).unwrap_err();
    assert_eq!(err.kind, FsErrorKind::IOError);
    assert_eq!(err.msg(), Some("device gone"));
    assert!(cache.is_empty());
}

#[test]
fn cache_keeps_written_words_and_syncs_them() {
    let mut cache = mem_cache();
    cache.write_u64(9, 16, 0x0102_0304_0506_0708).unwrap();
    assert_eq!(cache.read_u64(9, 16).unwrap(), 0x0102_0304_0506_0708);
    assert_eq!(cache.read_vec(9, 16, 2).unwrap(), vec![0x08, 0x07]);
    assert_eq!(cache.len(), 1);
    cache.sync_all().unwrap();
    let (dev, _) = cache.into_parts();
    let mut raw = vec![0u8; BLOCK_SIZE];
    dev.read_block(9, &mut raw).unwrap();
    assert_eq!(&raw[16..24], &[8, 7, 6, 5, 4, 3, 2, 1]);
}

#[test]
fn cache_trim_keeps_most_recent() {
    let mut cache = mem_cache();
    for b in 0..5u64 {
        cache.write_u64(b, 0, b + 100).unwrap();
    }
    cache.trim_to_size(2);
    assert_eq!(cache.len(), 2);
    assert_eq!(cache.read_u64(4, 0).unwrap(), 104);
    assert_eq!(cache.read_u64(0, 0).unwrap(), 100);
}

#[test]
fn superblock_layout_and_round_trip() {
    let sb = RawSuperBlock::new(BLOCK_SIZE * 4000, 1024 * 16);
    assert_eq!(sb.magic, 0xEFFF);
    assert_eq!(sb.size(), (BLOCK_SIZE * 4000) as u64);
    assert_eq!(sb.inode_blocks(), 4);
    assert_eq!(sb.inode_bitmap_blocks(), 1);
    assert_eq!(sb.data_bitmap_blocks(), 1);
    assert_eq!(sb.data_blocks(), 4000 - 4 - 1 - 2 - 1);
    assert_eq!(sb.inode_start_bno(), 3);
    assert_eq!(sb.data_bitmap_start_bno(), 7);
    assert_eq!(sb.data_start_bno(), 8);
    assert_eq!(sb.inode_counts(), 4 * 31);
    assert!(sb.verify().is_ok());
    let back = RawSuperBlock::from_bytes(&sb.to_bytes());
    assert_eq!(back.data_blocks, sb.data_blocks);
    assert_eq!(back.inode_blocks, sb.inode_blocks);
}

#[test]
fn superblock_verify_errors() {
    let mut sb = RawSuperBlock::new(BLOCK_SIZE * 4000, 1024 * 16);
    sb.magic = 1;
    let err = sb.verify().unwrap_err();
    assert_eq!(err.kind, FsErrorKind::FileSystemCorruption);
    assert_eq!(err.msg(), Some("efs superblock: invalid magic number"));
    let mut sb = RawSuperBlock::new(BLOCK_SIZE * 4000, 1024 * 16);
    sb.inode_bitmap_blocks = 0;
    assert_eq!(sb.verify().unwrap_err().msg(), Some("efs superblock: bad inode bitmap"));
    let mut sb = RawSuperBlock::new(BLOCK_SIZE * 4000, 1024 * 16);
    sb.data_bitmap_blocks = 0;
    assert_eq!(sb.verify().unwrap_err().msg(), Some("efs superblock: bad data bitmap"));
}

#[test]
fn inode_and_dirent_round_trip() {
    let mut n = RawINode::default();
    n.set_file_type(FileType::File);
    n.size = 77;
    n.direct_blk_ptrs[3] = 999;
    n.double_indirect_blk_ptr = 12345;
    let back = RawINode::from_bytes(&n.to_bytes());
    assert_eq!(back.file_type(), FileType::File);
    assert_eq!(back.size(), 77);
    assert_eq!(back.direct_blk_ptrs[3], 999);
    assert_eq!(back.double_indirect_blk_ptr, 12345);
    assert_eq!(n.to_bytes().len(), 132);

    let d = RawDirent::new(42, FileType::Directory, "docs");
    assert_eq!(d.name(), b"docs");
    assert!(!d.is_unused());
    let back = RawDirent::from_bytes(&d.to_bytes());
    assert_eq!(back.inode_no, 42);
    assert_eq!(back.typ, FileType::Directory);
    assert_eq!(back.name(), b"docs");
}

#[test]
fn make_then_open_again() {
    let fs = ram_fs();
    let mut fs = fs;
    fs.cache.sync_all().unwrap();
    let (dev, _) = fs.cache.into_parts();
    let mut again = EfsFileSystem::open(dev, FsConfig::new()).unwrap();
    assert!(again.is_inode_used(ROOT_INODE_NO).unwrap());
    assert!(again.is_inode_used(0).unwrap());
    assert_eq!(again.count_allocated_inodes().unwrap(), 20);
}

#[test]
fn open_blank_device_fails_on_reserved_inode() {
    let err = EfsFileSystem::open(RamBlockDevice::new(), FsConfig::new()).err().unwrap();
    assert_eq!(err.kind, FsErrorKind::InvalidArgument);
}

#[test]
fn data_block_allocation() {
    let mut fs = ram_fs();
    let start = fs.superblock().data_start_bno();
    let before = fs.count_allocated_data_blocks().unwrap();
    let b = fs.alloc_data_block().unwrap();
    assert!(b >= start);
    assert!(fs.is_data_block_used(b).unwrap());
    fs.dealloc_data_block(b).unwrap();
    assert!(!fs.is_data_block_used(b).unwrap());
    assert_eq!(fs.count_allocated_data_blocks().unwrap(), before);
    assert_eq!(fs.dealloc_data_block(1).unwrap_err().kind, FsErrorKind::InvalidArgument);
}

#[test]
fn test_create_dir() {
    let mut fs = ram_fs();
    let root = INode::new(&fs, ROOT_INODE_NO);

    let dir_a = create_dir(&mut fs, &root, "dir_a");
    let dir_b = create_dir(&mut fs, &root, "dir_b");

    let l_dir_a = lookup(&mut fs, &root, "dir_a").unwrap();
    let l_dir_b = lookup(&mut fs, &root, "dir_b").unwrap();
    assert_eq!(l_dir_a.inode_no, dir_a.ino);
    assert_eq!(l_dir_b.inode_no, dir_b.ino);

    let l_root = lookup(&mut fs, &dir_a, "..").unwrap();
    assert_eq!(l_root.inode_no, ROOT_INODE_NO);

    let l_self = lookup(&mut fs, &dir_a, ".").unwrap();
    assert_eq!(l_self.inode_no, dir_a.ino);
}

#[test]
fn test_remove_dir() {
    let mut fs = ram_fs();
    let root = INode::new(&fs, ROOT_INODE_NO);

    let links = root.read_raw_inode(&mut fs).unwrap().nlink();
    let dir_a = create_dir(&mut fs, &root, "dir_a");
    root.remove(&mut fs, &dir_a, ValidFileName::try_from("dir_a").unwrap()).unwrap();

    assert!(lookup(&mut fs, &root, "dir_a").is_none());
    assert_eq!(dir_a.read_raw_inode(&mut fs).unwrap().nlink(), 0);
    assert_eq!(root.read_raw_inode(&mut fs).unwrap().nlink(), links);
}

#[test]
fn test_remove_file() {
    let mut fs = ram_fs();
    let root = INode::new(&fs, ROOT_INODE_NO);

    let file = create_file(&mut fs, &root, "file");
    root.remove(&mut fs, &file, ValidFileName::try_from("file").unwrap()).unwrap();

    assert!(lookup(&mut fs, &root, "file").is_none());
    assert_eq!(file.read_raw_inode(&mut fs).unwrap().nlink(), 0);
}

#[test]
fn test_remove_non_empty_dir() {
    let mut fs = ram_fs();
    let root = INode::new(&fs, ROOT_INODE_NO);

    let dir_a = create_dir(&mut fs, &root, "dir_a");
    create_file(&mut fs, &dir_a, "tmp.txt");

    let result = root.remove(&mut fs, &dir_a, ValidFileName::try_from("dir_a").unwrap());
    assert_eq!(result.unwrap_err().kind, FsErrorKind::NotEmpty);
}

#[test]
fn create_twice_is_already_exists() {
    let mut fs = ram_fs();
    let root = INode::new(&fs, ROOT_INODE_NO);
    create_file(&mut fs, &root, "twice");
    let err = root.create_file(&mut fs, ValidFileName::try_from("twice").unwrap()).unwrap_err();
    assert_eq!(err.kind, FsErrorKind::AlreadyExists);
}

#[test]
fn directory_listing_and_emptiness() {
    let mut fs = ram_fs();
    let root = INode::new(&fs, ROOT_INODE_NO);
    let dir = create_dir(&mut fs, &root, "d");
    assert!(dir.is_empty_dir(&mut fs).unwrap());
    create_file(&mut fs, &dir, "x");
    assert!(!dir.is_empty_dir(&mut fs).unwrap());

    let blank = redwing::fcntl::Dirent {
        name: [0; 256],
        name_len: 0,
        inode_no: 0,
        typ: redwing::fcntl::FileType::RegularFile,
    };
    let mut out = [blank; 8];
    let (consumed, n) = dir.get_dirents(&mut fs, 0, &mut out).unwrap();
    assert_eq!(n, 3);
    assert_eq!(consumed, 240);
    assert_eq!(&out[0].name[..out[0].name_len], b".");
    assert_eq!(&out[1].name[..out[1].name_len], b"..");
    assert_eq!(&out[2].name[..out[2].name_len], b"x");
    assert_eq!(out[2].typ, redwing::fcntl::FileType::RegularFile);

    let file = INode::new(&fs, out[2].inode_no);
    assert_eq!(file.get_dirents(&mut fs, 0, &mut out).unwrap_err().kind, FsErrorKind::NotADirectory);
}

#[test]
fn symlink_holds_its_target() {
    let mut fs = ram_fs();
    let root = INode::new(&fs, ROOT_INODE_NO);
    let ino = root.symlink(&mut fs, ValidFileName::try_from("link").unwrap(), b"/bin/sh").unwrap();
    let link = INode::new(&fs, ino);
    let mut buf = [0u8; 7];
    assert_eq!(link.read(&mut fs, 0, &mut buf).unwrap(), 7);
    assert_eq!(&buf, b"/bin/sh");
    let long = [b'a'; 64];
    let err = root.symlink(&mut fs, ValidFileName::try_from("l2").unwrap(), &long).unwrap_err();
    assert_eq!(err.kind, FsErrorKind::InvalidArgument);
}

#[test]
fn test_wr_file_basic() {
    let mut fs = ram_fs();
    let root = INode::new(&fs, ROOT_INODE_NO);
    let inode = create_file(&mut fs, &root, "test");

    inode.write(&mut fs, 0, b"hello_world").unwrap();
    assert_eq!(inode.size(&mut fs).unwrap(), 11);

    let mut buf = [0_u8; 5];
    inode.read(&mut fs, 6, &mut buf).unwrap();
    assert_eq!(&buf, b"world");

    inode.write(&mut fs, 6, b"rust1").unwrap();
    assert_eq!(inode.size(&mut fs).unwrap(), 11);
    inode.read(&mut fs, 6, &mut buf).unwrap();
    assert_eq!(&buf, b"rust1");

    inode.write(&mut fs, 8, b"by111").unwrap();
    assert_eq!(inode.size(&mut fs).unwrap(), 13);
    inode.read(&mut fs, 8, &mut buf).unwrap();
    assert_eq!(&buf, b"by111");
    inode.read(&mut fs, 6, &mut buf).unwrap();
    assert_eq!(&buf, b"ruby1");
}

fn assert_read(fs: &mut Fs, inode: &INode, offset: usize, buf: &mut [u8], expected: &[u8]) {
    buf.fill(0);
    let len = inode.read(fs, offset as u64, buf).unwrap();
    assert_eq!(len, (buf.len() as u64) - offset as u64);
    assert_eq!(buf[..len as usize], expected[offset..]);
}

#[test]
fn test_wr_large_file() {
    const BLOCK_CNT: usize = 3000;
    let data = rand_bytes(BLOCK_CNT * BLOCK_SIZE);

    let mut fs = ram_fs();
    let root = INode::new(&fs, ROOT_INODE_NO);
    let inode = create_file(&mut fs, &root, "test");

    assert_eq!(inode.write(&mut fs, 0, data.as_slice()).unwrap(), data.len() as u64);
    assert_eq!(inode.size(&mut fs).unwrap(), data.len() as u64);

    let mut buf = zero_bytes(BLOCK_CNT * BLOCK_SIZE);

    assert_read(&mut fs, &inode, 0, &mut buf, &data);
    assert_read(&mut fs, &inode, 4095, &mut buf, &data);
    assert_read(&mut fs, &inode, 4096, &mut buf, &data);
    assert_read(&mut fs, &inode, BLOCK_SIZE * NUM_DIRECT_DATA_BLKS - 1, &mut buf, &data);
    assert_read(&mut fs, &inode, BLOCK_SIZE * NUM_DIRECT_DATA_BLKS, &mut buf, &data);
    assert_read(&mut fs, &inode, BLOCK_SIZE * 400, &mut buf, &data);
    assert_read(&mut fs, &inode, BLOCK_SIZE * 1025 - 1, &mut buf, &data);
    assert_read(&mut fs, &inode, BLOCK_SIZE * 2000 - 1, &mut buf, &data);
}

#[test]
fn test_truncate() {
    const BLOCK_CNT: usize = 100;
    let data = rand_bytes(BLOCK_CNT * BLOCK_SIZE);

    let mut fs = ram_fs();
    let root = INode::new(&fs, ROOT_INODE_NO);
    let inode = create_file(&mut fs, &root, "test");

    let n = fs.count_allocated_data_blocks().unwrap();

    assert_eq!(inode.write(&mut fs, 0, &data).unwrap(), data.len() as u64);

    let mut buf = zero_bytes(BLOCK_CNT * BLOCK_SIZE);

    for blocks in [50usize, 14, 12, 11, 0] {
        let len = BLOCK_SIZE * blocks;
        inode.truncate(&mut fs, len as u64).unwrap();
        assert_read(&mut fs, &inode, 0, &mut buf[..len], &data[..len]);
    }

    assert_eq!(n, fs.count_allocated_data_blocks().unwrap());
}

#[test]
fn truncate_gives_back_each_block_past_the_new_end() {
    let mut fs = ram_fs();
    let root = INode::new(&fs, ROOT_INODE_NO);
    let inode = create_file(&mut fs, &root, "test");
    let before = fs.count_allocated_data_blocks().unwrap();
    let data = rand_bytes(20 * BLOCK_SIZE);
    assert_eq!(inode.write(&mut fs, 0, &data).unwrap(), data.len() as u64);
    // twenty data blocks and the indirect table
    assert_eq!(fs.count_allocated_data_blocks().unwrap(), before + 21);
    inode.truncate(&mut fs, (5 * BLOCK_SIZE) as u64).unwrap();
    assert_eq!(fs.count_allocated_data_blocks().unwrap(), before + 5);
    inode.truncate(&mut fs, 0).unwrap();
    assert_eq!(fs.count_allocated_data_blocks().unwrap(), before);
}

#[test]
fn test_with_wrong_offset() {
    let mut fs = ram_fs();
    let root = INode::new(&fs, ROOT_INODE_NO);
    let inode = create_file(&mut fs, &root, "test");

    let mut buf = [0_u8; BLOCK_SIZE * 4];

    assert_eq!(inode.write(&mut fs, 10, b"test").unwrap_err().kind, FsErrorKind::InvalidArgument);
    assert_eq!(inode.read(&mut fs, 10, &mut buf).unwrap_err().kind, FsErrorKind::InvalidArgument);
}

#[test]
fn directory_inode_refuses_file_io() {
    let mut fs = ram_fs();
    let root = INode::new(&fs, ROOT_INODE_NO);
    let mut buf = [0u8; 4];
    assert_eq!(root.read(&mut fs, 0, &mut buf).unwrap_err().kind, FsErrorKind::IsADirectory);
    assert_eq!(root.write(&mut fs, 0, b"x").unwrap_err().kind, FsErrorKind::IsADirectory);
    assert_eq!(root.truncate(&mut fs, 0).unwrap_err().kind, FsErrorKind::IsADirectory);
}

#[test]
fn raw_truncate_refuses_growth() {
    let mut fs = ram_fs();
    let root = INode::new(&fs, ROOT_INODE_NO);
    let inode = create_file(&mut fs, &root, "grow");
    inode.write(&mut fs, 0, b"abc").unwrap();
    let err = inode.raw_truncate(&mut fs, 10).unwrap_err();
    assert_eq!(err.kind, FsErrorKind::InvalidArgument);
    assert_eq!(err.msg(), Some("the new size is greater than the file size."));
    assert_eq!(inode.truncate(&mut fs, 1).unwrap(), 3);
    assert_eq!(inode.size(&mut fs).unwrap(), 1);
}

#[test]
fn dirent_name_as_text() {
    let d = RawDirent::new(7, FileType::File, "notes.txt");
    assert_eq!(d.name_as_utf8(), "notes.txt");
    let mut name = [0u8; 64];
    name[0] = b'a';
    name[1] = 0xff;
    name[2] = b'b';
    let bad = RawDirent { inode_no: 3, typ: FileType::File, name_len: 3, name };
    assert_eq!(bad.name_as_utf8(), "a\u{fffd}b");
}

#[test]
fn mkdir_counts_links() {
    let mut fs = ram_fs();
    let root = INode::new(&fs, ROOT_INODE_NO);
    let before = root.read_raw_inode(&mut fs).unwrap().nlink();
    let dir = create_dir(&mut fs, &root, "sub");
    let raw = dir.read_raw_inode(&mut fs).unwrap();
    assert_eq!(raw.file_type(), FileType::Directory);
    assert_eq!(raw.nlink(), 2);
    assert_eq!(root.read_raw_inode(&mut fs).unwrap().nlink(), before + 1);
    let entry = lookup(&mut fs, &root, "sub").unwrap();
    assert_eq!(entry.inode_no, dir.ino);
}

#[test]
fn symlink_record_is_a_linked_file() {
    let mut fs = ram_fs();
    let root = INode::new(&fs, ROOT_INODE_NO);
    let ino = root.symlink(&mut fs, ValidFileName::try_from("ln").unwrap(), b"target").unwrap();
    let raw = INode::new(&fs, ino).read_raw_inode(&mut fs).unwrap();
    assert_eq!(raw.file_type(), FileType::File);
    assert_eq!(raw.nlink(), 1);
    assert_eq!(raw.size(), 6);
    assert_eq!(lookup(&mut fs, &root, "ln").unwrap().inode_no, ino);
}

#[test]
fn write_leaves_other_files_alone() {
    let mut fs = ram_fs();
    let root = INode::new(&fs, ROOT_INODE_NO);
    let a = create_file(&mut fs, &root, "a");
    let b = create_file(&mut fs, &root, "b");
    let data_a = rand_bytes(3 * BLOCK_SIZE + 17);
    let data_b = vec![0x5au8; BLOCK_SIZE + 5];
    assert_eq!(a.write(&mut fs, 0, &data_a).unwrap(), data_a.len() as u64);
    assert_eq!(b.write(&mut fs, 0, &data_b).unwrap(), data_b.len() as u64);
    let more = vec![0xa5u8; 2 * BLOCK_SIZE];
    assert_eq!(a.write(&mut fs, 100, &more).unwrap(), more.len() as u64);
    let mut buf = vec![0u8; data_b.len()];
    assert_read(&mut fs, &b, 0, &mut buf, &data_b);
}

#[test]
fn remove_checks_parent_then_child() {
    let mut fs = ram_fs();
    let root = INode::new(&fs, ROOT_INODE_NO);
    let f = create_file(&mut fs, &root, "plain");
    let err = f.remove(&mut fs, &root, ValidFileName::try_from("x").unwrap()).unwrap_err();
    assert_eq!(err.kind, FsErrorKind::NotADirectory);
    let unused = INode::new(&fs, 700);
    let err = root.remove(&mut fs, &unused, ValidFileName::try_from("x").unwrap()).unwrap_err();
    assert_eq!(err.kind, FsErrorKind::FileSystemCorruption);
}

#[test]
fn truncate_leaves_other_files_alone() {
    let mut fs = ram_fs();
    let root = INode::new(&fs, ROOT_INODE_NO);
    let a = create_file(&mut fs, &root, "a");
    let b = create_file(&mut fs, &root, "b");
    let data_a = rand_bytes(20 * BLOCK_SIZE);
    let data_b = vec![0x3cu8; 3 * BLOCK_SIZE + 9];
    assert_eq!(a.write(&mut fs, 0, &data_a).unwrap(), data_a.len() as u64);
    assert_eq!(b.write(&mut fs, 0, &data_b).unwrap(), data_b.len() as u64);
    assert_eq!(a.truncate(&mut fs, 5 * BLOCK_SIZE as u64).unwrap(), data_a.len() as u64);
    let mut buf = vec![0u8; data_b.len()];
    assert_read(&mut fs, &b, 0, &mut buf, &data_b);
}
