use std::cell::RefCell;
use std::collections::VecDeque;

use redwing::errors::{FsError, FsErrorKind, SysError, SysErrorKind};
use redwing::human_size::human_size;
use redwing::kernel::cpu::{arch_name, parse_misa, vendor_name};
use redwing::kernel::devices::{Device, NullDev, ZeroDev};
use redwing::kernel::discipline::{LineDiscipline, TextScreen};
use redwing::kernel::plic;
use redwing::kernel::trap::{self, AccessType, ExceptionAction, TrapAction, TrapSignal};
use redwing::kernel::trap_cause::{Exception, Interrupt, Scause};
use redwing::kernel::tty::{control_signal, TtyControl, TtyDevice, TtyRead};
use redwing::name::{check_contains_invalid_char, ValidFileName, ValidLookupName};
use redwing::path::{Component, Path};

#[derive(Default)]
struct Screen {
    out: RefCell<Vec<u8>>,
}

impl TextScreen for Screen {
    fn write(&self, buf: &[u8]) -> Result<usize, SysError> {
        self.out.borrow_mut().extend_from_slice(buf);
        Ok(buf.len())
    }
    fn clear_screen(&self) -> Result<(), SysError> {
        Ok(())
    }
    fn insert_whitespace_at_cursor(&self) {}
    fn delete_char_before_cursor(&self) {}
    fn move_cursor_left(&self, _n: usize) {}
    fn move_cursor_rigth(&self, _n: usize) {}
    fn clear_to_end_of_line(&self) {}
}

fn bytes(q: VecDeque<u8>) -> Vec<u8> {
    q.into_iter().collect()
}

#[test]
fn path_parent_examples() {
    assert_eq!(Path::new(b"/usr/local/bin").parent().unwrap().as_bytes(), b"/usr/local");
    assert_eq!(Path::new(b"/home").parent().unwrap().as_bytes(), b"/");
    assert!(Path::new(b"/").parent().is_none());
    assert!(Path::new(b"./").parent().is_none());
}

#[test]
fn path_name_examples() {
    assert_eq!(Path::new(b"/usr/local/bin").name(), Some(b"bin".as_ref()));
    assert_eq!(Path::new(b"/usr/local/").name(), Some(b"local".as_ref()));
}

#[test]
fn path_iter_example() {
    let parts = Path::new(b"/home/work/").iter();
    assert_eq!(parts, vec![b"/".as_ref(), b"home".as_ref(), b"work".as_ref()]);
}

#[test]
fn path_components_examples() {
    let mut c = Path::new(b"/home//work/").components();
    assert_eq!(c.next(), Some(Component::RootDir));
    assert_eq!(c.next(), Some(Component::Normal(b"home")));
    assert_eq!(c.next(), Some(Component::Normal(b"work")));
    assert_eq!(c.next(), None);

    let mut c = Path::new(b".").components();
    assert_eq!(c.next(), Some(Component::CurDir));
    assert_eq!(c.next(), None);

    let mut c = Path::new(b"./test/./").components();
    assert_eq!(c.next(), Some(Component::CurDir));
    assert_eq!(c.next(), Some(Component::Normal(b"test")));
    assert_eq!(c.next(), None);

    let mut c = Path::new(b"a/../b").components();
    assert_eq!(c.next_back(), Some(Component::Normal(b"b")));
    assert_eq!(c.next_back(), Some(Component::ParentDir));
    assert_eq!(c.as_path().as_bytes(), b"a");
}

#[test]
fn path_predicates() {
    assert!(Path::new(b"/usr/local/bin").is_absolute());
    assert!(Path::new(b"local/bin").is_relative());
    assert!(Path::new(b"/usr/local/bin").is_file());
    assert!(Path::new(b"/usr/local/").is_dir());
    assert!(Path::new(b"a/..").is_dir());
    assert!(Path::new(b"//").is_root());
    assert!(!Path::new(b"/a").is_root());
}

#[test]
fn human_size_texts() {
    assert_eq!(human_size(0).to_string(), "0");
    assert_eq!(human_size(1023).to_string(), "1023");
    assert_eq!(human_size(1024).to_string(), "1K");
    assert_eq!(human_size(1536).to_string(), "1.5K");
    assert_eq!(human_size(10 * 1024 + 600).to_string(), "11K");
    assert_eq!(human_size(3 * 1024 * 1024).to_string(), "3M");
}

#[test]
fn sys_error_texts_and_numbers() {
    assert_eq!(SysErrorKind::NotPermitted.errno(), 1);
    assert_eq!(SysErrorKind::TooManyTasks.errno(), 30);
    assert_eq!(SysErrorKind::try_from_primitive(11), Some(SysErrorKind::NoSuchFileOrDirectory));
    assert_eq!(SysErrorKind::try_from_primitive(0), None);
    let e = SysError::with_fmt_args(SysErrorKind::InvalidArgument, "bad fd 3");
    assert_eq!(e.to_string(), "invalid argument: bad fd 3");
    assert_eq!(SysError::from(SysErrorKind::NotPermitted).to_string(), "operation not permitted");
    assert_eq!(e.errno(), 24);
}

#[test]
fn fs_error_becomes_sys_error() {
    let e = FsError::with_fmt_args(FsErrorKind::FileSystemCorruption, "broken");
    assert_eq!(e.to_string(), "file system corruption: broken");
    let s = SysError::from(e);
    assert_eq!(s.kind, SysErrorKind::BadFs);
    assert_eq!(s.msg(), Some("broken"));
}

#[test]
fn names_are_checked() {
    assert!(ValidFileName::try_from("hello.txt").is_ok());
    assert_eq!(ValidFileName::try_from("..").unwrap_err().kind, FsErrorKind::InvalidArgument);
    assert!(ValidLookupName::try_from("..").is_ok());
    assert_eq!(ValidFileName::try_from("a/b").unwrap_err().kind, FsErrorKind::InvalidArgument);
    let long = "x".repeat(257);
    assert_eq!(ValidLookupName::try_from(&long).unwrap_err().kind, FsErrorKind::FileNameTooLong);
    assert!(check_contains_invalid_char("abc").is_ok());
    assert!(check_contains_invalid_char("a\0c").is_err());
    assert_eq!(
        ValidFileName::try_from_bytes(&[0xff, 0xfe]).unwrap_err().kind,
        FsErrorKind::InvalidUt8Str
    );
    assert_eq!(ValidFileName::try_from_bytes(b"ok").unwrap().as_str(), "ok");
}

#[test]
fn null_and_zero_devices() {
    let mut buf = [9u8; 4];
    assert_eq!(NullDev.dev_read(0, &mut buf).unwrap(), 0);
    assert_eq!(buf, [9u8; 4]);
    assert_eq!(NullDev.dev_write(0, b"abc").unwrap(), 0);
    assert_eq!(NullDev.info().device_no, 2);
    assert_eq!(ZeroDev.dev_read(0, &mut buf).unwrap(), 4);
    assert_eq!(buf, [0u8; 4]);
    assert_eq!(ZeroDev.dev_write(0, b"abc").unwrap(), 3);
    assert_eq!(ZeroDev.info().name, "zero");
}

#[test]
fn plic_register_offsets() {
    assert_eq!(plic::priority_reg_offset(10), 40);
    assert_eq!(plic::enable_reg_bit(1, 33), (0x2080 + 0x100 + 1, 1));
    assert_eq!(plic::threshold_reg_offset(2), 0x201000 + 2 * 0x2000);
    assert_eq!(plic::claim_reg_offset(0), 0x201004);
    assert_eq!(plic::with_enabled(0b1, 3), 0b1001);
}

#[test]
fn trap_decisions() {
    assert_eq!(
        trap::handle_exception(Exception::LoadPageFault),
        ExceptionAction::PageFault(AccessType::Read)
    );
    assert_eq!(
        trap::handle_exception(Exception::StorePageFault),
        ExceptionAction::PageFault(AccessType::Write)
    );
    assert_eq!(
        trap::handle_exception(Exception::IllegalInstruction),
        ExceptionAction::Signal(TrapSignal::IllegalInstruction)
    );
    assert_eq!(
        trap::handle_exception(Exception::BreakPoint),
        ExceptionAction::Signal(TrapSignal::Kill)
    );
    assert_eq!(trap::after_page_fault(false), Some(TrapSignal::SegmentationFault));
    assert_eq!(trap::after_page_fault(true), None);
    assert_eq!(trap::handle_scause((1u64 << 63) | 5), TrapAction::Timer);
    assert_eq!(trap::handle_scause((1u64 << 63) | 9), TrapAction::External);
    assert_eq!(trap::handle_scause((1u64 << 63) | 1), TrapAction::Unexpected(Interrupt::Software));
    assert_eq!(trap::handle_scause(8), TrapAction::Syscall);
    assert_eq!(trap::handle_scause(13), TrapAction::Exception(Exception::LoadPageFault));
    assert!(!trap::should_complete(0));
    assert_eq!(trap::syscall_return_pc(0x1000), 0x1004);
}

#[test]
fn trap_cause_codes() {
    assert_eq!(Scause::from_bits(15), Scause::Excp(Exception::StorePageFault));
    assert_eq!(Scause::from_bits(15).bits(), 15);
    assert_eq!(Exception::from_code(30), Exception::Custom(30));
    assert_eq!(Exception::from_code(20), Exception::Reserved(20));
    assert_eq!(Exception::from_code(12).to_string(), "Instruction page fault");
    assert_eq!(Interrupt::from_code(7).to_string(), "Other Interrupt (7)");
    assert_eq!(Scause::Intr(Interrupt::Timer).to_string(), "INTR: Timer Interrupt");
}

#[test]
fn line_discipline_completes_lines() {
    let mut ld = LineDiscipline::new(Screen::default());
    for b in b"ls -l" {
        assert!(!ld.input_byte(*b));
    }
    assert!(ld.input_byte(b'\n'));
    assert_eq!(bytes(ld.completed_line().unwrap()), b"ls -l\n".to_vec());
    assert!(ld.completed_line().is_none());
    ld.input_byte(b'a');
    ld.input_byte(b'b');
    ld.input_byte(0x7f);
    ld.input_byte(b'c');
    ld.input_byte(b'\r');
    assert_eq!(bytes(ld.completed_line().unwrap()), b"ac\n".to_vec());
}

#[test]
fn tty_reads_lines_and_signals() {
    let mut tty = TtyDevice::new(Screen::default());
    assert_eq!(control_signal(3), Some(TtyControl::Interrupt));
    assert_eq!(control_signal(0x1c), Some(TtyControl::Quit));
    let (sigs, new_line) = tty.receive_input(b"hi\x03\n", true);
    assert_eq!(sigs, vec![TtyControl::Interrupt]);
    assert!(new_line);
    let mut buf = [0u8; 2];
    assert_eq!(tty.dev_read(false, &mut buf), TtyRead::NotForeground);
    assert_eq!(tty.dev_read(true, &mut buf), TtyRead::Read(2));
    assert_eq!(&buf, b"hi");
    assert_eq!(tty.dev_read(true, &mut buf), TtyRead::Read(1));
    assert_eq!(buf[0], b'\n');
    assert_eq!(tty.dev_read(true, &mut buf), TtyRead::Wait);
    let (_, done) = tty.receive_input(&[4], false);
    assert!(done);
    assert_eq!(tty.dev_read(true, &mut buf), TtyRead::Eof);
}

#[test]
fn tty_foreground_group() {
    let mut tty = TtyDevice::new(Screen::default());
    assert_eq!(tty.get_fg_tgid(), 0);
    tty.set_fg_tgid(5, 5, Ok((5, 5))).unwrap();
    assert_eq!(tty.get_fg_tgid(), 5);
    assert_eq!(tty.current_sid, Some(5));
    let err = tty.set_fg_tgid(7, 9, Ok((5, 5))).unwrap_err();
    assert_eq!(err.kind, SysErrorKind::NotPermitted);
    let err = tty.set_fg_tgid(7, 5, Ok((5, 6))).unwrap_err();
    assert_eq!(err.kind, SysErrorKind::NotPermitted);
    tty.set_fg_tgid(7, 5, Ok((5, 5))).unwrap();
    assert_eq!(tty.get_fg_tgid(), 7);
}

#[test]
fn trailing_slash_keeps_components() {
    let a: Vec<&[u8]> = Path::new(b"usr/local/").iter();
    let b: Vec<&[u8]> = Path::new(b"usr/local").iter();
    assert_eq!(a, b);
    assert_eq!(Path::new(b"/").iter(), vec![b"/".as_ref()]);
    assert!(Path::new(b"").iter().is_empty());
}

#[test]
fn cpu_register_names() {
    assert_eq!(parse_misa(2u64 << 62 | 0x141101), "rv64");
    assert_eq!(parse_misa(0), "rv??");
    assert_eq!(vendor_name(0x489), "SiFive");
    assert_eq!(vendor_name(7), "Unrecognized");
    assert_eq!(arch_name(1u64 << 63), "Custom arch ID");
    assert_eq!(arch_name(0x21), "SiFive U74");
}

#[test]
fn seek_offsets() {
    let ok = |r: Result<u64, SysError>| r.unwrap();
    assert_eq!(ok(redwing::kernel::seek::calculate_offset(5, 10, 100, redwing::kernel::seek::SeekFrom::Begin)), 10);
    assert_eq!(ok(redwing::kernel::seek::calculate_offset(5, 10, 100, redwing::kernel::seek::SeekFrom::Current)), 15);
    assert_eq!(ok(redwing::kernel::seek::calculate_offset(5, -10, 100, redwing::kernel::seek::SeekFrom::End)), 90);
    let e = redwing::kernel::seek::calculate_offset(5, -10, 100, redwing::kernel::seek::SeekFrom::Current).unwrap_err();
    assert_eq!(e.kind, SysErrorKind::InvalidArgument);
    let e = redwing::kernel::seek::calculate_offset(u64::MAX, 0, 0, redwing::kernel::seek::SeekFrom::Current).unwrap_err();
    assert_eq!(e.kind, SysErrorKind::InvalidArgument);
}

fn forward_components(p: &[u8]) -> Vec<Component<'_>> {
    let mut c = Path::new(p).components();
    let mut out = Vec::new();
    while let Some(x) = c.next() {
        out.push(x);
    }
    out
}

#[test]
fn is_root_exactly_when_root_is_the_only_component() {
    for p in [&b"/"[..], b"//", b"/.", b"/./", b"/./.", b"", b".", b"/a", b"/..", b"./", b"/.a"] {
        let only_root = forward_components(p) == vec![Component::RootDir];
        assert_eq!(Path::new(p).is_root(), only_root, "{:?}", p);
    }
    assert!(Path::new(b"/./.").is_root());
    assert!(!Path::new(b"/..").is_root());
}

fn backward_components(p: &[u8]) -> Vec<Component<'_>> {
    let mut c = Path::new(p).components();
    let mut out = Vec::new();
    while let Some(x) = c.next_back() {
        out.push(x);
    }
    out
}

#[test]
fn walking_from_the_back_gives_the_components_reversed() {
    for p in [&b"/a/b/c"[..], b"a//b/./c/", b"./x/../y", b"/", b"", b"..", b"/./."] {
        let mut back = backward_components(p);
        back.reverse();
        assert_eq!(back, forward_components(p), "{:?}", p);
    }
}

#[test]
fn parent_drops_the_last_component() {
    for p in [&b"/a/b/c"[..], b"a//b/./c/", b"./x/..", b"a", b"/a"] {
        let parent = Path::new(p).parent().unwrap();
        let mut want = forward_components(p);
        want.pop();
        assert_eq!(forward_components(parent.as_bytes()), want, "{:?}", p);
    }
    assert!(Path::new(b"/").parent().is_none());
}

#[test]
fn doubled_slashes_and_dot_segments_change_no_component() {
    assert_eq!(forward_components(b"a//b"), forward_components(b"a/b"));
    assert_eq!(forward_components(b"a/./b"), forward_components(b"a/b"));
    assert_eq!(forward_components(b"/.//./c/"), forward_components(b"/c"));
    assert_eq!(forward_components(b"./a"), vec![Component::CurDir, Component::Normal(b"a")]);
    assert_eq!(forward_components(b"a/../b")[1], Component::ParentDir);
}

#[test]
fn a_path_reads_as_its_normal_form() {
    let cases: [(&[u8], &[u8]); 8] = [
        (b"a//b", b"a/b"),
        (b"a/./b", b"a/b"),
        (b"a/b/", b"a/b"),
        (b"/./a//b/./c/.", b"/a/b/c"),
        (b"./x//./y/", b"./x/y"),
        (b"//", b"/"),
        (b"/.", b"/"),
        (b"a/../b//", b"a/../b"),
    ];
    for (p, q) in cases {
        assert_eq!(forward_components(p), forward_components(q), "{:?}", p);
    }
    assert_eq!(forward_components(b"a//b"), vec![Component::Normal(&b"a"[..]), Component::Normal(&b"b"[..])]);
}
