use redwing::errors::FsErrorKind;
use redwing::fcntl::FileType;
use redwing::ramfs::RamFile;

#[test]
pub fn test_file_read_write() {
    let mut inode = RamFile::new(2);

    let len = inode.write(0, b"hello world").unwrap();
    assert_eq!(len, 11);

    let mut buf = [0_u8; 1024];
    let len = inode.read(0, &mut buf[..11]).unwrap() as usize;
    assert_eq!(len, 11);
    assert_eq!(&buf[..len], b"hello world");

    let len = inode.write(6, b"rust").unwrap();
    assert_eq!(len, 4);

    let len = inode.read(0, &mut buf[..11]).unwrap() as usize;
    assert_eq!(len, 11);
    assert_eq!(&buf[..len], b"hello rustd");

    let len = inode.read(6, &mut buf[..11]).unwrap() as usize;
    assert_eq!(len, 5);
    assert_eq!(&buf[..len], b"rustd");
}

#[test]
fn ram_file_write_past_end_is_refused() {
    let mut f = RamFile::new(3);
    f.write(0, b"abc").unwrap();
    let err = f.write(4, b"x").unwrap_err();
    assert_eq!(err.kind, FsErrorKind::InvalidArgument);
    assert_eq!(err.msg(), Some("ram file: write offset out of file."));
    assert_eq!(f.write(3, b"d").unwrap(), 1);
    assert_eq!(f.content, b"abcd".to_vec());
}

#[test]
fn ram_file_metadata_and_truncate() {
    let mut f = RamFile::new(9);
    f.write(0, b"0123456789").unwrap();
    let st = f.metadata().unwrap();
    assert_eq!(st.ino, 9);
    assert_eq!(st.size, 10);
    assert_eq!(st.typ, FileType::RegularFile);
    assert_eq!(st.nlink, 1);
    assert_eq!(f.truncate(4).unwrap(), 10);
    assert_eq!(f.content, b"0123".to_vec());
    assert_eq!(f.truncate(5).unwrap_err().kind, FsErrorKind::InvalidArgument);
}

#[test]
fn ram_file_read_past_end_is_empty() {
    let mut f = RamFile::new(1);
    f.write(0, b"ab").unwrap();
    let mut buf = [7u8; 4];
    assert_eq!(f.read(5, &mut buf).unwrap(), 0);
    assert_eq!(buf, [7u8; 4]);
    assert_eq!(f.read(1, &mut buf).unwrap(), 1);
    assert_eq!(buf, [b'b', 7, 7, 7]);
}

use redwing::errors::FsErrorKind as Kind;
use redwing::ramfs::{RamDirectory, RamLookup};

#[test]
fn ram_directory_create_lookup_unlink() {
    let mut d = RamDirectory::new(1);
    assert_eq!(d.create(b"a", FileType::RegularFile, 2).unwrap(), 2);
    assert_eq!(d.create(b"sub", FileType::Directory, 3).unwrap(), 3);
    assert_eq!(d.create(b"a", FileType::RegularFile, 4).unwrap_err().kind, Kind::AlreadyExists);
    assert_eq!(d.create(b"dev", FileType::Device, 5).unwrap_err().kind, Kind::Unsupported);
    assert_eq!(d.size(), 4);
    assert_eq!(d.lookup(b"a"), Some(RamLookup::Child(2, FileType::RegularFile)));
    assert_eq!(d.lookup(b"."), Some(RamLookup::This));
    assert_eq!(d.lookup(b".."), Some(RamLookup::Parent));
    assert_eq!(d.lookup(b"zz"), None);
    d.unlink(b"a").unwrap();
    assert_eq!(d.lookup(b"a"), None);
    assert_eq!(d.unlink(b"a").unwrap_err().kind, Kind::NoSuchFileOrDirectory);
    d.make_read_only();
    assert_eq!(d.create(b"b", FileType::RegularFile, 6).unwrap_err().kind, Kind::PermissionDenied);
    assert_eq!(d.unlink(b"sub").unwrap_err().kind, Kind::PermissionDenied);
}

#[test]
fn ram_directory_listing() {
    let mut d = RamDirectory::new(7);
    d.create(b"x", FileType::RegularFile, 8).unwrap();
    d.create(b"y", FileType::Directory, 9).unwrap();
    let (ds, moved) = d.get_dirents(0, Some(1), 10);
    assert_eq!(moved, 4);
    assert_eq!(&ds[0].name[..ds[0].name_len], b".");
    assert_eq!(ds[0].inode_no, 7);
    assert_eq!(&ds[1].name[..ds[1].name_len], b"..");
    assert_eq!(ds[1].inode_no, 1);
    assert_eq!(&ds[2].name[..ds[2].name_len], b"x");
    assert_eq!(ds[3].inode_no, 9);
    let (ds, moved) = d.get_dirents(3, None, 10);
    assert_eq!(moved, 1);
    assert_eq!(&ds[0].name[..ds[0].name_len], b"y");
}
