use redwing::efs::dirent::RawDirent;
use redwing::efs::inode::FileType;
use redwing::errors::SysErrorKind;
use redwing::kernel::devtable::DeviceTable;
use redwing::kernel::terminal::InputReciverList;

#[test]
fn registered_devices_are_found_by_number() {
    let mut t: DeviceTable<&str> = DeviceTable::new();
    assert_eq!(t.len(), 0);
    t.dev_register(2, "null");
    t.dev_register(3, "zero");
    assert_eq!(t.len(), 2);
    assert_eq!(*t.get_device(2).unwrap(), "null");
    assert_eq!(*t.get_device(3).unwrap(), "zero");
    let e = t.get_device(7).unwrap_err();
    assert_eq!(e.kind, SysErrorKind::NoSuchDev);
    assert!(e.msg.is_none());
}

#[test]
fn all_devices_are_listed_once() {
    let mut t: DeviceTable<u32> = DeviceTable::new();
    for n in [5u32, 1, 9, 4] {
        t.dev_register(n, n * 10);
    }
    let mut all: Vec<u32> = t.get_all_devices().into_iter().copied().collect();
    all.sort();
    assert_eq!(all, vec![10, 40, 50, 90]);
    let empty: DeviceTable<u32> = DeviceTable::new();
    assert!(empty.get_all_devices().is_empty());
}

#[test]
fn input_goes_to_live_receivers_and_the_others_leave() {
    let mut l: InputReciverList<char> = InputReciverList::new();
    for c in ['a', 'b', 'c', 'd'] {
        l.register(c);
    }
    let called = l.receive_input(&[true, false, true, false]);
    assert_eq!(called, vec![0, 2]);
    assert_eq!(l.list, vec!['a', 'c']);
    let called = l.receive_input(&[false, false]);
    assert!(called.is_empty());
    assert!(l.list.is_empty());
}

#[test]
fn an_entry_name_with_invalid_utf8_reads_with_replacement_characters() {
    let mut name = [0u8; 64];
    name[0] = 0xff;
    name[1] = b'a';
    let d = RawDirent { inode_no: 3, typ: FileType::File, name_len: 2, name };
    assert_eq!(d.name_as_utf8(), "\u{FFFD}a");
    name[0] = b'o';
    let d = RawDirent { inode_no: 3, typ: FileType::File, name_len: 2, name };
    assert_eq!(d.name_as_utf8(), "oa");
}
