use los::io::{get_user_buf, write_user_bytes, UserSlice};
use los::process::{i32_to_le, store_exit_code, u64_to_le, ProcInfo, ProcessManager, State, WaitDecision};
use los::mem::address::{PhyPageNum, VirPageNum};
use los::mem::frame::StackFrameAllocator;
use los::mem::page_table::{PTEFlags, PageTable, FLAG_R, FLAG_W};
use los::mem::physmem::PhysMem;

#[test]
fn user_buffer_split_at_page_boundaries() {
    let mut alloc = StackFrameAllocator::const_new();
    alloc.init(PhyPageNum(0x100), PhyPageNum(0x110));
    let mut mem = PhysMem::new(0x100, 16);
    let mut pt = PageTable::new(&mut alloc, &mut mem);
    let flags = PTEFlags::from_bits_truncate(FLAG_R | FLAG_W);
    pt.build_reflect(VirPageNum(0x10), PhyPageNum(0x500), flags, &mut alloc, &mut mem);
    pt.build_reflect(VirPageNum(0x11), PhyPageNum(0x777), flags, &mut alloc, &mut mem);
    let pieces = get_user_buf(&pt, &mem, 0x10ff0, 0x20);
    assert_eq!(
        pieces,
        vec![
            UserSlice { ppn: 0x500, start: 0xff0, end: 0x1000 },
            UserSlice { ppn: 0x777, start: 0, end: 0x10 },
        ]
    );
    let whole = get_user_buf(&pt, &mem, 0x10000, 0x1000);
    assert_eq!(whole, vec![UserSlice { ppn: 0x500, start: 0, end: 0x1000 }]);
    assert!(get_user_buf(&pt, &mem, 0x10010, 0).is_empty());
}

fn mapped_space() -> (PageTable, PhysMem) {
    let mut alloc = StackFrameAllocator::const_new();
    alloc.init(PhyPageNum(0x100), PhyPageNum(0x110));
    let mut mem = PhysMem::new(0x100, 16);
    let mut pt = PageTable::new(&mut alloc, &mut mem);
    let flags = PTEFlags::from_bits_truncate(FLAG_R | FLAG_W);
    pt.build_reflect(VirPageNum(0x10), PhyPageNum(0x10a), flags, &mut alloc, &mut mem);
    pt.build_reflect(VirPageNum(0x11), PhyPageNum(0x10c), flags, &mut alloc, &mut mem);
    (pt, mem)
}

#[test]
fn user_bytes_stored_across_pages() {
    let (pt, mut mem) = mapped_space();
    write_user_bytes(&pt, &mut mem, 0x10ffe, &[1, 2, 3, 4]);
    assert_eq!(mem.read_bytes(0x10a, 0xffe, 2), vec![1, 2]);
    assert_eq!(mem.read_bytes(0x10c, 0, 2), vec![3, 4]);
    assert_eq!(mem.read_bytes(0x10c, 2, 2), vec![0, 0]);
    write_user_bytes(&pt, &mut mem, 0x11000, &[]);
    assert_eq!(mem.read_bytes(0x10c, 0, 1), vec![3]);
}

#[test]
fn exit_code_stored_little_endian() {
    let (pt, mut mem) = mapped_space();
    store_exit_code(&pt, &mut mem, 0x10010, -2);
    assert_eq!(mem.read_bytes(0x10a, 0x10, 4), vec![0xfe, 0xff, 0xff, 0xff]);
    store_exit_code(&pt, &mut mem, 0, 5);
    assert_eq!(mem.read_bytes(0x10a, 0x10, 4), vec![0xfe, 0xff, 0xff, 0xff]);
    assert_eq!(i32_to_le(0x0102_0304), vec![4, 3, 2, 1]);
    assert_eq!(u64_to_le(0x0102_0304_0506_0708), vec![8, 7, 6, 5, 4, 3, 2, 1]);
}

#[test]
fn task_info_stored_in_user_memory() {
    let (pt, mut mem) = mapped_space();
    let mut m = ProcessManager::new();
    m.add_task(ProcInfo { pid: 7, status: State::Ready, exit_code: None, children: Vec::new() });
    assert_eq!(m.store_task_info(&pt, &mut mem, 0x10100, 0x10ffc, 10), 6);
    assert_eq!(mem.read_bytes(0x10a, 0xffc, 4), b"haha".to_vec());
    assert_eq!(mem.read_bytes(0x10c, 0, 3), b"ha\0".to_vec());
    assert_eq!(mem.read_bytes(0x10a, 0x100, 8), vec![7, 0, 0, 0, 0, 0, 0, 0]);
}

#[test]
fn waitpid_stores_reaped_exit_code() {
    let (pt, mut mem) = mapped_space();
    let mut m = ProcessManager::new();
    m.add_task(ProcInfo { pid: 1, status: State::Ready, exit_code: None, children: vec![2, 3] });
    m.add_task(ProcInfo { pid: 2, status: State::Ready, exit_code: None, children: Vec::new() });
    m.add_task(ProcInfo { pid: 3, status: State::Exited, exit_code: Some(42), children: Vec::new() });
    assert_eq!(m.waitpid_store(2, 0x10020, &pt, &mut mem), WaitDecision::Return(usize::MAX - 1));
    assert_eq!(mem.read_bytes(0x10a, 0x20, 4), vec![0, 0, 0, 0]);
    assert_eq!(m.waitpid_store(-1, 0x10020, &pt, &mut mem), WaitDecision::Reap { index: 1, pid: 3 });
    assert_eq!(mem.read_bytes(0x10a, 0x20, 4), vec![42, 0, 0, 0]);
    assert_eq!(m.current_program.as_ref().unwrap().children, vec![2]);
}
