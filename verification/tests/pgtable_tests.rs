use redwing::errors::SysErrorKind;
use redwing::kernel::memlayout::{is_from_user_elf, USER_ELF_END_VADDR, USER_ELF_SIZE};
use redwing::kernel::pgtable::{FramePool, PageTables};
use redwing::kernel::pte::EntryPerm;

fn text_perm() -> EntryPerm {
    EntryPerm { valid: false, readable: true, writable: false, executable: true, user: true }
}

#[test]
fn vmap_maps_each_page_valid_with_its_perm() {
    let mut frames = FramePool::from_range(0x8000_0000, 64);
    let mut pt = PageTables::new(&mut frames).unwrap();
    pt.vmap(0x2_0000_0000, 0x3000, text_perm(), &mut frames).unwrap();
    let mut seen = Vec::new();
    for k in 0..3u64 {
        let e = pt.get_entry(0x2_0000_0000 + k * 0x1000).unwrap();
        assert_eq!(e & 0x3FF, 1 | 2 | 8 | 16);
        let pa = (e >> 10) * 4096;
        assert!(pa >= 0x8000_0000 && pa < 0x8000_0000 + 64 * 4096);
        assert!(!seen.contains(&pa));
        seen.push(pa);
    }
    assert!(pt.get_entry(0x2_0000_3000).is_none());
    assert!(pt.get_entry(0x1_ffff_f000).is_none());
}

#[test]
fn vmap_across_tables() {
    let mut frames = FramePool::from_range(0x8000_0000, 200);
    let mut pt = PageTables::new(&mut frames).unwrap();
    // crosses a level-1 boundary (2MB) and a level-2 boundary (1GB)
    pt.vmap(0x1_ffff_e000, 0x4000, text_perm(), &mut frames).unwrap();
    for k in 0..4u64 {
        assert!(pt.get_entry(0x1_ffff_e000 + k * 0x1000).is_some());
    }
    assert!(pt.get_entry(0x2_0000_2000).is_none());
}

#[test]
fn vmap_refuses_a_mapped_page_and_rolls_back() {
    let mut frames = FramePool::from_range(0x8000_0000, 64);
    let mut pt = PageTables::new(&mut frames).unwrap();
    pt.vmap(0x2_0000_2000, 0x1000, text_perm(), &mut frames).unwrap();
    let before = frames.len();
    let err = pt.vmap(0x2_0000_0000, 0x4000, text_perm(), &mut frames).unwrap_err();
    assert_eq!(err.kind, SysErrorKind::InvalidArgument);
    assert!(pt.get_entry(0x2_0000_0000).is_none());
    assert!(pt.get_entry(0x2_0000_1000).is_none());
    assert!(pt.get_entry(0x2_0000_2000).is_some());
    assert!(pt.get_entry(0x2_0000_3000).is_none());
    // the two frames of the rolled-back pages came back
    assert_eq!(frames.len(), before);
}

#[test]
fn vmap_out_of_frames() {
    let mut frames = FramePool::from_range(0x8000_0000, 3);
    let mut pt = PageTables::new(&mut frames).unwrap();
    let err = pt.vmap(0x2_0000_0000, 0x1000, text_perm(), &mut frames).unwrap_err();
    assert_eq!(err.kind, SysErrorKind::OutOfMemory);
    assert!(pt.get_entry(0x2_0000_0000).is_none());
}

#[test]
fn vmap_keeps_pages_when_a_table_runs_out_under_the_first_root_entry() {
    // root, level-1 table, level-0 table, one page frame: the next 2MB
    // region needs a level-0 table and none is left
    let mut frames = FramePool::from_range(0x8000_0000, 4);
    let mut pt = PageTables::new(&mut frames).unwrap();
    let err = pt.vmap(0x2_001F_F000, 0x2000, text_perm(), &mut frames).unwrap_err();
    assert_eq!(err.kind, SysErrorKind::OutOfMemory);
    assert!(pt.get_entry(0x2_001F_F000).is_some());
    assert!(pt.get_entry(0x2_0020_0000).is_none());
}

#[test]
fn vmap_keeps_pages_when_a_level_one_table_runs_out() {
    // the second page lies under the next root entry, whose level-1
    // table cannot be made
    let mut frames = FramePool::from_range(0x8000_0000, 4);
    let mut pt = PageTables::new(&mut frames).unwrap();
    let err = pt.vmap(0x1_FFFF_F000, 0x2000, text_perm(), &mut frames).unwrap_err();
    assert_eq!(err.kind, SysErrorKind::OutOfMemory);
    assert!(pt.get_entry(0x1_FFFF_F000).is_some());
    assert!(pt.get_entry(0x2_0000_0000).is_none());
}

#[test]
fn vmap_rolls_back_when_a_page_frame_runs_out() {
    // tables for both pages exist after the first; the second page's
    // frame is missing
    let mut frames = FramePool::from_range(0x8000_0000, 5);
    let mut pt = PageTables::new(&mut frames).unwrap();
    let err = pt.vmap(0x2_0000_0000, 0x3000, text_perm(), &mut frames).unwrap_err();
    assert_eq!(err.kind, SysErrorKind::OutOfMemory);
    assert!(pt.get_entry(0x2_0000_0000).is_none());
    assert!(pt.get_entry(0x2_0000_1000).is_none());
}

#[test]
fn vmap_empty_range_is_ok() {
    let mut frames = FramePool::from_range(0x8000_0000, 1);
    let mut pt = PageTables::new(&mut frames).unwrap();
    pt.vmap(0x1_0000_0000, 0, text_perm(), &mut frames).unwrap();
}

#[test]
fn vunmap_gives_frames_back() {
    let mut frames = FramePool::from_range(0x8000_0000, 400);
    let mut pt = PageTables::new(&mut frames).unwrap();
    pt.vmap(0x2_4753_3000, 0x10_0000, text_perm(), &mut frames).unwrap();
    let after_map = frames.len();
    pt.vunmap(0x2_4753_3000, 0x10_0000, &mut frames);
    assert_eq!(frames.len(), after_map + 0x100);
    for k in 0..0x100u64 {
        assert!(pt.get_entry(0x2_4753_3000 + k * 0x1000).is_none());
    }
}

#[test]
fn user_elf_area_is_512mb() {
    assert_eq!(USER_ELF_SIZE, 512 * 1024 * 1024);
    assert_eq!(USER_ELF_END_VADDR, 0x2_2008_0000);
    assert!(is_from_user_elf(0x2_1000_0000));
    assert!(is_from_user_elf(0x2_0008_0000));
    assert!(!is_from_user_elf(0x2_2008_0000));
    assert!(!is_from_user_elf(0x2_0007_f000));
}

use redwing::fcntl::FileType;
use redwing::kernel::procfs::{proc_root_dirents, ProcChild};

fn children() -> Vec<ProcChild> {
    vec![
        ProcChild { name: b"cpuinfo".to_vec(), typ: FileType::RegularFile, ino: 3 },
        ProcChild { name: b"slabinfo".to_vec(), typ: FileType::RegularFile, ino: 4 },
    ]
}

fn name_of(d: &redwing::fcntl::Dirent) -> &[u8] {
    &d.name[..d.name_len]
}

#[test]
fn proc_root_lists_dots_tasks_then_children() {
    let (ds, moved) = proc_root_dirents(0, &[1, 42], &children(), 16);
    assert_eq!(moved, 6);
    assert_eq!(ds.len(), 6);
    assert_eq!(name_of(&ds[0]), b".");
    assert_eq!(name_of(&ds[1]), b"..");
    assert_eq!(ds[0].inode_no, 1);
    assert_eq!(name_of(&ds[2]), b"1");
    assert_eq!(ds[2].inode_no, 110);
    assert_eq!(name_of(&ds[3]), b"42");
    assert_eq!(ds[3].inode_no, 520);
    assert!(ds[3].typ == FileType::Directory);
    assert_eq!(name_of(&ds[4]), b"cpuinfo");
    assert_eq!(ds[5].inode_no, 4);
    assert!(ds[5].name[8..].iter().all(|b| *b == 0));
}

#[test]
fn proc_root_resumes_at_offset_and_stops_at_n() {
    let (ds, moved) = proc_root_dirents(3, &[1, 42], &children(), 2);
    assert_eq!(moved, 2);
    assert_eq!(name_of(&ds[0]), b"42");
    assert_eq!(name_of(&ds[1]), b"cpuinfo");
    let (ds, moved) = proc_root_dirents(6, &[1, 42], &children(), 4);
    assert_eq!(moved, 0);
    assert!(ds.is_empty());
}

use redwing::kernel::virtio_init::{init_step, VirtioInitAction, VirtioInitFailure, VirtioInitState};

/// Runs the bring-up against a device that answers with `regs` for each
/// read, and gives the writes it was asked for.
fn run_init(probe: u32, features: u32, status: u32, ready: u32, max: u32) -> (Vec<VirtioInitAction>, VirtioInitState) {
    let mut state = VirtioInitState::Probe;
    let mut reg = probe;
    let mut actions = Vec::new();
    loop {
        let (next, action) = init_step(state, reg);
        state = next;
        actions.push(action);
        reg = match action {
            VirtioInitAction::ReadDeviceFeatures => features,
            VirtioInitAction::ReadStatus => status,
            VirtioInitAction::ReadQueueReady => ready,
            VirtioInitAction::ReadQueueSizeMax => max,
            VirtioInitAction::Fail(_) | VirtioInitAction::Finished => break,
            _ => 0,
        };
    }
    (actions, state)
}

#[test]
fn virtio_init_runs_the_whole_sequence() {
    let (actions, state) = run_init(1, 0xffff_ffff, 0xb, 0, 16);
    assert_eq!(state, VirtioInitState::Done);
    assert_eq!(
        actions,
        vec![
            VirtioInitAction::WriteStatus(0),
            VirtioInitAction::WriteStatus(3),
            VirtioInitAction::ReadDeviceFeatures,
            VirtioInitAction::WriteDriverFeatures(0xffff_ffff & !0x3800_18A0),
            VirtioInitAction::WriteStatus(11),
            VirtioInitAction::ReadStatus,
            VirtioInitAction::SelectQueue(0),
            VirtioInitAction::ReadQueueReady,
            VirtioInitAction::ReadQueueSizeMax,
            VirtioInitAction::WriteQueueSize(8),
            VirtioInitAction::WriteRingAddresses,
            VirtioInitAction::WriteQueueReady(1),
            VirtioInitAction::WriteStatus(0xb | 4),
            VirtioInitAction::WriteInterruptAck(0),
            VirtioInitAction::Finished,
        ]
    );
}

#[test]
fn virtio_init_failures() {
    let (a, _) = run_init(0, 0, 0, 0, 0);
    assert_eq!(a.last(), Some(&VirtioInitAction::Fail(VirtioInitFailure::NoDevice)));
    let (a, _) = run_init(1, 0, 3, 0, 8);
    assert_eq!(a.last(), Some(&VirtioInitAction::Fail(VirtioInitFailure::FeaturesRefused)));
    let (a, _) = run_init(1, 0, 11, 1, 8);
    assert_eq!(a.last(), Some(&VirtioInitAction::Fail(VirtioInitFailure::QueueAlreadyReady)));
    let (a, _) = run_init(1, 0, 11, 0, 0);
    assert_eq!(a.last(), Some(&VirtioInitAction::Fail(VirtioInitFailure::NoQueue)));
    let (a, _) = run_init(1, 0, 11, 0, 7);
    assert_eq!(a.last(), Some(&VirtioInitAction::Fail(VirtioInitFailure::QueueTooShort)));
}

use redwing::kernel::procfs::{slab_info_text, SlabInfoRow};

fn row(name: &str, v: [u64; 7]) -> SlabInfoRow {
    SlabInfoRow {
        name: name.as_bytes().to_vec(),
        active_objs: v[0],
        num_objs: v[1],
        object_size: v[2],
        objs_per_slab: v[3],
        pages_per_slab: v[4],
        num_slabs: v[5],
        batchcount: v[6],
    }
}

#[test]
fn slab_info_text_lays_out_columns() {
    let rows = vec![row("kmalloc-32", [5, 128, 32, 128, 1, 1, 16]), row("vm", [0, 0, 4096, 1, 1, 0, 123456789012])];
    let name_w = 10;
    let mut want = format!(
        "{:<name_w$}  {}  {}  {}  {}  {}  {}  {}\n\n",
        "name", "active objs", "num objs", "obj size", "objs per slab", "pages per slab", "num slabs", "batchcount"
    );
    for r in &rows {
        want += &format!(
            "{:<name_w$}  {:>11}  {:>8}  {:>8}  {:>13}  {:>14}  {:>9}  {:>10}\n",
            String::from_utf8(r.name.clone()).unwrap(),
            r.active_objs,
            r.num_objs,
            r.object_size,
            r.objs_per_slab,
            r.pages_per_slab,
            r.num_slabs,
            r.batchcount
        );
    }
    assert_eq!(slab_info_text(&rows), want);
}

#[test]
fn slab_info_name_column_is_at_least_four_wide() {
    let text = slab_info_text(&[row("a", [1, 2, 3, 4, 5, 6, 7])]);
    assert!(text.starts_with("name  active objs"));
    assert!(text.contains("\na     "));
}

#[test]
fn unmap_gives_the_frame_and_leaves_the_page_unmapped() {
    let mut frames = FramePool::from_range(0x8000_0000, 64);
    let mut pt = PageTables::new(&mut frames).unwrap();
    pt.vmap(0x2_0000_0000, 0x2000, text_perm(), &mut frames).unwrap();
    let e = pt.get_entry(0x2_0000_1000).unwrap();
    assert_eq!(pt.unmap(0x2_0000_1000), Some((e >> 10) << 12));
    assert!(pt.get_entry(0x2_0000_1000).is_none());
    assert!(pt.get_entry(0x2_0000_0000).is_some());
    assert_eq!(pt.unmap(0x2_0000_1000), None);
    assert_eq!(pt.unmap(0x3_0000_0000), None);
}

#[test]
fn map_repoints_a_mapped_page_only() {
    let mut frames = FramePool::from_range(0x8000_0000, 64);
    let mut pt = PageTables::new(&mut frames).unwrap();
    pt.vmap(0x2_0000_0000, 0x1000, text_perm(), &mut frames).unwrap();
    let rw = EntryPerm { valid: false, readable: true, writable: true, executable: false, user: false };
    let e = pt.map(0x2_0000_0000, 0x9000_0000, rw).unwrap();
    assert_eq!(e, ((0x9000_0000u64 / 4096) << 10) | 1 | 2 | 4);
    assert_eq!(pt.get_entry(0x2_0000_0000), Some(e));
    let err = pt.map(0x2_0000_1000, 0x9000_1000, rw).unwrap_err();
    assert_eq!(err.kind, SysErrorKind::OutOfMemory);
    assert!(pt.get_entry(0x2_0000_1000).is_none());
}

#[test]
fn try_map_never_maps() {
    let mut frames = FramePool::from_range(0x8000_0000, 64);
    let mut pt = PageTables::new(&mut frames).unwrap();
    pt.vmap(0x2_0000_0000, 0x1000, text_perm(), &mut frames).unwrap();
    let before = pt.get_entry(0x2_0000_0000);
    assert_eq!(pt.try_map(0x2_0000_0000, 0x9000_0000, text_perm()).unwrap(), None);
    assert_eq!(pt.get_entry(0x2_0000_0000), before);
    let err = pt.try_map(0x2_0000_1000, 0x9000_1000, text_perm()).unwrap_err();
    assert_eq!(err.kind, SysErrorKind::OutOfMemory);
}

#[test]
fn range_of_entries_lists_the_mapped_pages_in_order() {
    let mut frames = FramePool::from_range(0x8000_0000, 64);
    let mut pt = PageTables::new(&mut frames).unwrap();
    pt.vmap(0x2_0000_1000, 0x1000, text_perm(), &mut frames).unwrap();
    pt.vmap(0x2_0000_3000, 0x2000, text_perm(), &mut frames).unwrap();
    let r = pt.range_of_entries(0x2_0000_0000, 0x2_0000_4000);
    let vas: Vec<u64> = r.iter().map(|x| x.0).collect();
    assert_eq!(vas, vec![0x2_0000_1000, 0x2_0000_3000]);
    assert_eq!(r[0].1, pt.get_entry(0x2_0000_1000).unwrap());
    assert!(pt.range_of_entries(0x2_0000_5000, 0x2_0000_5000).is_empty());
}

#[test]
fn vmap_takes_a_frame_per_page_and_per_table_it_makes() {
    // root, then two pages under new level-1 and level-0 tables: four
    let mut frames = FramePool::from_range(0x8000_0000, 5);
    let mut pt = PageTables::new(&mut frames).unwrap();
    pt.vmap(0x2_0000_0000, 0x2000, text_perm(), &mut frames).unwrap();
    assert_eq!(frames.len(), 0);
    // one frame short
    let mut frames = FramePool::from_range(0x8000_0000, 4);
    let mut pt = PageTables::new(&mut frames).unwrap();
    let err = pt.vmap(0x2_0000_0000, 0x2000, text_perm(), &mut frames).unwrap_err();
    assert_eq!(err.kind, SysErrorKind::OutOfMemory);
    // the tables exist now: a third page needs only its own frame
    let mut frames = FramePool::from_range(0x8000_0000, 6);
    let mut pt = PageTables::new(&mut frames).unwrap();
    pt.vmap(0x2_0000_0000, 0x2000, text_perm(), &mut frames).unwrap();
    assert_eq!(frames.len(), 1);
    pt.vmap(0x2_0000_2000, 0x1000, text_perm(), &mut frames).unwrap();
    assert_eq!(frames.len(), 0);
}
