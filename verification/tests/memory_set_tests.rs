use los::config::{TRAMPOLINE, TRAP_CONTEXT};
use los::program::{exec_current, fork_program, new_program};
use los::fs::cache::{BlockCacheManager, MemBlockDevice};
use los::fs::inode::Inode;
use los::fs::structure::{DiskInode, InodeType};
use los::syscall::RestoreBehavior;
use los::trap::TrapContext;
use los::mem::address::{PhyPageNum, VirAddr, VirPageNum};
use los::mem::elf::read_segments;
use los::mem::frame::StackFrameAllocator;
use los::mem::memory_set::{
    check_layout, KernelLayout, MapArea, MapPermission, MapType, MemorySet, PERM_R, PERM_U, PERM_W, PERM_X,
};
use los::mem::physmem::PhysMem;

fn machine(base: u64, count: u64) -> (StackFrameAllocator, PhysMem) {
    let mut alloc = StackFrameAllocator::const_new();
    alloc.init(PhyPageNum(base), PhyPageNum(base + count));
    (alloc, PhysMem::new(base, count))
}

struct Seg {
    vaddr: u64,
    flags: u32,
    data: Vec<u8>,
    mem_size: u64,
    kind: u32,
}

/// A little-endian ELF64 file with the given program headers; segment bytes
/// start at 0x200.
fn make_elf(entry: u64, segs: &[Seg]) -> Vec<u8> {
    let mut out = vec![0u8; 0x200];
    out[0..4].copy_from_slice(&[0x7f, b'E', b'L', b'F']);
    out[4] = 2;
    out[5] = 1;
    out[6] = 1;
    out[16..18].copy_from_slice(&2u16.to_le_bytes());
    out[18..20].copy_from_slice(&0xf3u16.to_le_bytes());
    out[20..24].copy_from_slice(&1u32.to_le_bytes());
    out[24..32].copy_from_slice(&entry.to_le_bytes());
    out[32..40].copy_from_slice(&64u64.to_le_bytes());
    out[52..54].copy_from_slice(&64u16.to_le_bytes());
    out[54..56].copy_from_slice(&56u16.to_le_bytes());
    out[56..58].copy_from_slice(&(segs.len() as u16).to_le_bytes());
    out[58..60].copy_from_slice(&64u16.to_le_bytes());
    let mut off = 0x200u64;
    for (i, s) in segs.iter().enumerate() {
        let ph = 64 + i * 56;
        out[ph..ph + 4].copy_from_slice(&s.kind.to_le_bytes());
        out[ph + 4..ph + 8].copy_from_slice(&s.flags.to_le_bytes());
        out[ph + 8..ph + 16].copy_from_slice(&off.to_le_bytes());
        out[ph + 16..ph + 24].copy_from_slice(&s.vaddr.to_le_bytes());
        out[ph + 24..ph + 32].copy_from_slice(&s.vaddr.to_le_bytes());
        out[ph + 32..ph + 40].copy_from_slice(&(s.data.len() as u64).to_le_bytes());
        out[ph + 40..ph + 48].copy_from_slice(&s.mem_size.to_le_bytes());
        out[ph + 48..ph + 56].copy_from_slice(&0x1000u64.to_le_bytes());
        off += s.data.len() as u64;
    }
    for s in segs {
        out.extend_from_slice(&s.data);
    }
    out
}

fn frame_of(ms: &MemorySet, area: usize, vpn: u64) -> u64 {
    ms.areas[area].data_frames.get(&vpn).unwrap().ppn.0
}

#[test]
fn read_segments_reads_program_headers() {
    let elf = make_elf(
        0x10000,
        &[Seg { vaddr: 0x10000, flags: 5, data: b"hello".to_vec(), mem_size: 0x1800, kind: 1 }],
    );
    let (h, segs) = read_segments(&elf).unwrap();
    assert_eq!(h.entry, 0x10000);
    assert_eq!(h.ph_count, 1);
    assert_eq!(segs.len(), 1);
    assert!(segs[0].is_load);
    assert_eq!(segs[0].virtual_addr, 0x10000);
    assert_eq!(segs[0].mem_size, 0x1800);
    assert_eq!(segs[0].file_size, 5);
    assert_eq!(segs[0].offset, 0x200);
    assert!(segs[0].readable && segs[0].executable && !segs[0].writable);
    assert!(read_segments(&[0u8; 100]).is_none());
}

#[test]
fn from_elf_maps_segments_stack_and_trap_context() {
    let elf = make_elf(
        0x10004,
        &[
            Seg { vaddr: 0x10000, flags: 5, data: b"hello".to_vec(), mem_size: 0x1800, kind: 1 },
            Seg { vaddr: 0x0, flags: 4, data: vec![], mem_size: 0, kind: 4 },
            Seg { vaddr: 0x13000, flags: 6, data: vec![7; 0x1001], mem_size: 0x1001, kind: 1 },
        ],
    );
    let (mut alloc, mut mem) = machine(0x1000, 128);
    let (ms, top, entry) = MemorySet::from_elf(&elf, 0x8020_1000, &mut alloc, &mut mem).unwrap();
    assert_eq!(entry, 0x10004);
    assert_eq!(ms.areas.len(), 4);
    assert_eq!(ms.areas[0].vpn_range.start.0, 0x10);
    assert_eq!(ms.areas[0].vpn_range.end.0, 0x12);
    assert_eq!(ms.areas[0].map_per.bits, PERM_U | PERM_R | PERM_X);
    assert_eq!(ms.areas[1].vpn_range.start.0, 0x13);
    assert_eq!(ms.areas[1].vpn_range.end.0, 0x15);
    assert_eq!(ms.areas[1].map_per.bits, PERM_U | PERM_R | PERM_W);
    assert_eq!(top, 0x18000);
    assert_eq!(ms.areas[2].vpn_range.start.0, 0x16);
    assert_eq!(ms.areas[2].vpn_range.end.0, 0x18);
    assert_eq!(ms.areas[2].map_per.bits, PERM_R | PERM_W | PERM_U);
    assert_eq!(ms.areas[3].vpn_range.start.0, 0x7ff_fffe);
    assert!(ms.areas.iter().all(|a| a.map_type == MapType::Framed));
    let f = frame_of(&ms, 0, 0x10);
    assert_eq!(mem.read_bytes(f, 0, 8), vec![b'h', b'e', b'l', b'l', b'o', 0, 0, 0]);
    let g = frame_of(&ms, 1, 0x14);
    assert_eq!(mem.read_bytes(g, 0, 2), vec![7, 0]);
    let pte = ms.page_table.vpn_to_pte(VirPageNum(0x10), &mem).unwrap();
    assert!(pte.is_valid() && pte.executable() && !pte.writable());
    assert_eq!(pte.ppn().0, f);
    let tramp = ms.page_table.vpn_to_pte(VirAddr::from(TRAMPOLINE).floor_to_vpn(), &mem).unwrap();
    assert_eq!(tramp.ppn().0, 0x80201);
    assert!(ms.page_table.vpn_to_pte(VirAddr::from(TRAP_CONTEXT).floor_to_vpn(), &mem).unwrap().is_valid());
    assert_eq!(ms.token(), (8u64 << 60) | 0x1000);
}

#[test]
fn from_elf_refuses_bad_files() {
    let (mut alloc, mut mem) = machine(0x1000, 64);
    let before = alloc.free_frames();
    assert!(MemorySet::from_elf_checked(&[0u8; 200], 0x8020_1000, &mut alloc, &mut mem).is_none());
    let overlapping = make_elf(
        0x10000,
        &[
            Seg { vaddr: 0x10000, flags: 4, data: vec![1], mem_size: 0x2000, kind: 1 },
            Seg { vaddr: 0x11000, flags: 4, data: vec![2], mem_size: 0x10, kind: 1 },
        ],
    );
    assert!(MemorySet::from_elf(&overlapping, 0x8020_1000, &mut alloc, &mut mem).is_none());
    let mut short = make_elf(
        0x10000,
        &[Seg { vaddr: 0x10000, flags: 4, data: vec![1; 16], mem_size: 0x10, kind: 1 }],
    );
    short.truncate(0x208);
    assert!(MemorySet::from_elf_checked(&short, 0x8020_1000, &mut alloc, &mut mem).is_none());
    assert_eq!(alloc.free_frames(), before);
}

#[test]
fn from_elf_needs_frames() {
    let elf = make_elf(0x10000, &[Seg { vaddr: 0x10000, flags: 4, data: vec![1], mem_size: 0x10, kind: 1 }]);
    let (mut alloc, mut mem) = machine(0x1000, 8);
    assert!(MemorySet::from_elf(&elf, 0x8020_1000, &mut alloc, &mut mem).is_none());
}

#[test]
fn from_elf_takes_frames_per_page_and_table() {
    let elf = make_elf(0x10000, &[Seg { vaddr: 0x10000, flags: 4, data: vec![1], mem_size: 0x10, kind: 1 }]);
    let (mut alloc, mut mem) = machine(0x1000, 8);
    assert!(MemorySet::from_elf(&elf, 0x8020_1000, &mut alloc, &mut mem).is_none());
    assert_eq!(alloc.free_frames(), 8);
    let (mut alloc, mut mem) = machine(0x1000, 9);
    let (ms, top, _) = MemorySet::from_elf(&elf, 0x8020_1000, &mut alloc, &mut mem).unwrap();
    assert_eq!(top, 0x14000);
    assert_eq!(ms.areas.len(), 3);
    assert_eq!(alloc.free_frames(), 0);
}

#[test]
fn kernel_space_with_frames_from_mapped_memory() {
    let layout = KernelLayout {
        text_start: 0x8020_0000,
        text_end: 0x8020_2000,
        rodata_start: 0x8020_2000,
        rodata_end: 0x8020_3000,
        data_start: 0x8020_3000,
        data_end: 0x8020_4000,
        bss_start_with_stack: 0x8020_4000,
        bss_end: 0x8020_5000,
        kernel_end: 0x8020_5000,
        memory_end: 0x8021_4000,
        trampoline: 0x8020_1000,
    };
    let (mut alloc, mut mem) = machine(0x80205, 5);
    let ks = MemorySet::build_kernel_space(layout, &mut alloc, &mut mem);
    assert_eq!(alloc.free_frames(), 0);
    assert_eq!(ks.token(), (8u64 << 60) | 0x80205);
    let e = ks.page_table.vpn_to_pte(VirPageNum(0x80213), &mem).unwrap();
    assert_eq!(e.ppn().0, 0x80213);
    assert!(e.readable() && e.writable() && !e.executable());
    let t = ks.page_table.vpn_to_pte(VirPageNum(0x80200), &mem).unwrap();
    assert!(t.readable() && t.executable() && !t.writable());
}

#[test]
fn check_layout_lists_every_area() {
    let elf = make_elf(0x10000, &[Seg { vaddr: 0x10000, flags: 4, data: vec![1], mem_size: 0x10, kind: 1 }]);
    let (_, segs) = read_segments(&elf).unwrap();
    let spans = check_layout(&segs, elf.len()).unwrap();
    assert_eq!(spans, vec![(0x10, 0x11), (0x12, 0x14), (0x7ff_fffe, 0x7ff_ffff)]);
}

#[test]
fn remap_test() {
    let layout = KernelLayout {
        text_start: 0x8020_0000,
        text_end: 0x8020_2000,
        rodata_start: 0x8020_2000,
        rodata_end: 0x8020_3000,
        data_start: 0x8020_3000,
        data_end: 0x8020_4000,
        bss_start_with_stack: 0x8020_4000,
        bss_end: 0x8020_5000,
        kernel_end: 0x8020_5000,
        memory_end: 0x8020_8000,
        trampoline: 0x8020_1000,
    };
    let (mut alloc, mut mem) = machine(0x9_0000, 64);
    let ks = MemorySet::build_kernel_space(layout, &mut alloc, &mut mem);
    assert_eq!(ks.areas.len(), 5);
    let mid_text = VirAddr::from((0x8020_0000u64 + 0x8020_2000) / 2).floor_to_vpn();
    let mid_rodata = VirAddr::from((0x8020_2000u64 + 0x8020_3000) / 2).floor_to_vpn();
    let mid_data = VirAddr::from((0x8020_3000u64 + 0x8020_4000) / 2).floor_to_vpn();
    assert!(!ks.page_table.vpn_to_pte(mid_text, &mem).unwrap().writable());
    assert!(!ks.page_table.vpn_to_pte(mid_rodata, &mem).unwrap().writable());
    assert!(!ks.page_table.vpn_to_pte(mid_data, &mem).unwrap().executable());
    let e = ks.page_table.vpn_to_pte(VirPageNum(0x80207), &mem).unwrap();
    assert_eq!(e.ppn().0, 0x80207);
    assert!(e.readable() && e.writable());
    assert!(!ks.page_table.vpn_to_pte(VirPageNum(0x80208), &mem).unwrap().is_valid());
}

#[test]
fn push_area_then_remove() {
    let (mut alloc, mut mem) = machine(0x1000, 32);
    let mut ms = MemorySet::empty(&mut alloc, &mut mem);
    let area = MapArea::new(
        VirAddr::from(0x4000u64),
        VirAddr::from(0x6000u64),
        MapType::Framed,
        MapPermission::from_bits_truncate(PERM_R | PERM_W),
    );
    ms.push_area(area, Some(&[5u8; 4100]), &mut alloc, &mut mem);
    let f0 = frame_of(&ms, 0, 4);
    let f1 = frame_of(&ms, 0, 5);
    assert_ne!(f0, f1);
    assert_eq!(mem.read_bytes(f0, 4095, 1), vec![5]);
    assert_eq!(mem.read_bytes(f1, 0, 5), vec![5, 5, 5, 5, 0]);
    let free_before = alloc.free_frames();
    let mut area = ms.areas.pop().unwrap();
    area.remove_self_from_page_table(&ms.page_table, &mut alloc, &mut mem);
    assert_eq!(alloc.free_frames(), free_before + 2);
    assert!(!ms.page_table.vpn_to_pte(VirPageNum(4), &mem).unwrap().is_valid());
    assert!(area.data_frames.is_empty());
}

#[test]
fn fork_copies_frames() {
    let (mut alloc, mut mem) = machine(0x1000, 64);
    let mut parent = MemorySet::empty(&mut alloc, &mut mem);
    let area = MapArea::new(
        VirAddr::from(0x4000u64),
        VirAddr::from(0x5000u64),
        MapType::Framed,
        MapPermission::from_bits_truncate(PERM_R | PERM_W | PERM_U),
    );
    parent.push_area(area, Some(b"parent"), &mut alloc, &mut mem);
    let mut child = MemorySet::empty(&mut alloc, &mut mem);
    child.fork_from(&parent, &mut alloc, &mut mem);
    assert_eq!(child.areas.len(), 1);
    let pf = frame_of(&parent, 0, 4);
    let cf = frame_of(&child, 0, 4);
    assert_ne!(pf, cf);
    assert_eq!(mem.read_bytes(cf, 0, 6), b"parent".to_vec());
    assert_eq!(child.areas[0].map_per.bits, PERM_R | PERM_W | PERM_U);
}

#[test]
fn read_segments_accepts_any_placement_of_the_bytes() {
    let elf = make_elf(
        0x10000,
        &[Seg { vaddr: 0x10000, flags: 5, data: b"hello".to_vec(), mem_size: 0x1800, kind: 1 }],
    );
    for shift in 1..8 {
        let mut moved = vec![0u8; shift];
        moved.extend_from_slice(&elf);
        let (h, segs) = read_segments(&moved[shift..]).unwrap();
        assert!(h.wide);
        assert_eq!(h.entry, 0x10000);
        assert_eq!(segs[0].virtual_addr, 0x10000);
    }
}

#[test]
fn read_segments_refuses_unaligned_program_headers() {
    let mut elf = make_elf(
        0x10000,
        &[Seg { vaddr: 0x10000, flags: 5, data: b"hello".to_vec(), mem_size: 0x1800, kind: 1 }],
    );
    elf[32..40].copy_from_slice(&0x41u64.to_le_bytes());
    assert!(read_segments(&elf).is_none());
}

#[test]
fn read_segments_reads_32_bit_files() {
    let mut out = vec![0u8; 0x100];
    out[0..4].copy_from_slice(&[0x7f, b'E', b'L', b'F']);
    out[4] = 1;
    out[5] = 1;
    out[6] = 1;
    out[16..18].copy_from_slice(&2u16.to_le_bytes());
    out[18..20].copy_from_slice(&0xf3u16.to_le_bytes());
    out[20..24].copy_from_slice(&1u32.to_le_bytes());
    out[24..28].copy_from_slice(&0x1000u32.to_le_bytes());
    out[28..32].copy_from_slice(&52u32.to_le_bytes());
    out[40..42].copy_from_slice(&52u16.to_le_bytes());
    out[42..44].copy_from_slice(&32u16.to_le_bytes());
    out[44..46].copy_from_slice(&1u16.to_le_bytes());
    out[52..56].copy_from_slice(&1u32.to_le_bytes());
    out[56..60].copy_from_slice(&0x80u32.to_le_bytes());
    out[60..64].copy_from_slice(&0x2000u32.to_le_bytes());
    out[68..72].copy_from_slice(&4u32.to_le_bytes());
    out[72..76].copy_from_slice(&0x100u32.to_le_bytes());
    out[76..80].copy_from_slice(&6u32.to_le_bytes());
    let (h, segs) = read_segments(&out).unwrap();
    assert!(!h.wide);
    assert_eq!(h.entry, 0x1000);
    assert_eq!(segs.len(), 1);
    assert!(segs[0].is_load);
    assert_eq!(segs[0].virtual_addr, 0x2000);
    assert_eq!(segs[0].offset, 0x80);
    assert_eq!(segs[0].file_size, 4);
    assert_eq!(segs[0].mem_size, 0x100);
    assert!(segs[0].readable && segs[0].writable && !segs[0].executable);
}

#[test]
fn exec_replaces_program_or_answers_minus_one() {
    let mut dev = MemBlockDevice::new();
    let mut mgr = BlockCacheManager::new();
    let root = Inode::new(2, 0);
    let dir = DiskInode {
        size: 0,
        direct_zone: [0; 28],
        first_level_indirect: 0,
        second_level_indirect: 0,
        node_type: InodeType::Directory,
    };
    root.modify_disk_inode(&dir, &mut mgr, &mut dev);
    let prog = root.create("prog", 1, vec![100], &Inode::new(2, 128), &mut mgr, &mut dev).unwrap();
    let elf = make_elf(0x10000, &[Seg { vaddr: 0x10000, flags: 5, data: b"hi".to_vec(), mem_size: 0x10, kind: 1 }]);
    prog.write_at(0, &elf[..512], vec![200], &mut mgr, &mut dev);
    prog.write_at(512, &elf[512..], vec![201], &mut mgr, &mut dev);
    let inode_at = vec![Inode::new(2, 0), Inode::new(2, 128)];
    let (mut alloc, mut mem) = machine(0x1000, 64);
    let mut ms = MemorySet::empty(&mut alloc, &mut mem);
    let mut ctx = TrapContext::new(7);
    let free = alloc.free_frames();
    let r = exec_current("none", &root, &inode_at, &mut mgr, &mut dev, &mut ms, &mut ctx, 0x8020_1000, &mut alloc, &mut mem);
    assert_eq!(r, RestoreBehavior::DirectReturn(usize::MAX));
    let r = exec_current("", &root, &inode_at, &mut mgr, &mut dev, &mut ms, &mut ctx, 0x8020_1000, &mut alloc, &mut mem);
    assert_eq!(r, RestoreBehavior::DirectReturn(usize::MAX));
    assert_eq!(ctx.sstatus, 7);
    assert_eq!(alloc.free_frames(), free);
    assert_eq!(ms.areas.len(), 0);
    let r = exec_current("prog", &root, &inode_at, &mut mgr, &mut dev, &mut ms, &mut ctx, 0x8020_1000, &mut alloc, &mut mem);
    assert_eq!(r, RestoreBehavior::DirectReturn(0));
    assert_eq!(ms.areas.len(), 3);
    assert_eq!(ctx.spec, 0x10000);
    assert_eq!(ctx.info.sp, 0x14000);
    assert_eq!(ctx.info.a0, 0);
    assert_eq!(ctx.sstatus, 0);
    let f = frame_of(&ms, 0, 0x10);
    assert_eq!(mem.read_bytes(f, 0, 3), vec![b'h', b'i', 0]);
    let after = alloc.free_frames();
    let r = exec_current("prog", &root, &inode_at, &mut mgr, &mut dev, &mut ms, &mut ctx, 0x8020_1000, &mut alloc, &mut mem);
    assert_eq!(r, RestoreBehavior::DirectReturn(0));
    assert_eq!(alloc.free_frames(), after);
    let g = frame_of(&ms, 0, 0x10);
    assert_eq!(mem.read_bytes(g, 0, 3), vec![b'h', b'i', 0]);
}

#[test]
fn new_program_then_fork_copies_the_space() {
    let elf = make_elf(0x10000, &[Seg { vaddr: 0x10000, flags: 7, data: b"data".to_vec(), mem_size: 0x10, kind: 1 }]);
    let (mut alloc, mut mem) = machine(0x1000, 64);
    assert!(new_program(&[0u8; 64], 0x8020_1000, &mut alloc, &mut mem).is_none());
    let (parent, mut ctx) = new_program(&elf, 0x8020_1000, &mut alloc, &mut mem).unwrap();
    assert_eq!(ctx.spec, 0x10000);
    assert_eq!(ctx.info.sp, 0x14000);
    ctx.info.a0 = 99;
    ctx.info.a1 = 5;
    let (child, cctx) = fork_program(&parent, &ctx, 0x8020_1000, &mut alloc, &mut mem);
    assert_eq!(cctx.info.a0, 0);
    assert_eq!(cctx.info.a1, 5);
    assert_eq!(cctx.spec, 0x10000);
    assert_eq!(child.areas.len(), 3);
    let pf = frame_of(&parent, 0, 0x10);
    let cf = frame_of(&child, 0, 0x10);
    assert_ne!(pf, cf);
    assert_eq!(mem.read_bytes(cf, 0, 4), b"data".to_vec());
    let tramp = child.page_table.vpn_to_pte(VirAddr::from(TRAMPOLINE).floor_to_vpn(), &mem).unwrap();
    assert_eq!(tramp.ppn().0, 0x80201);
    assert_ne!(child.token(), parent.token());
}

#[test]
fn release_gives_every_frame_back() {
    let elf = make_elf(0x10000, &[Seg { vaddr: 0x10000, flags: 5, data: b"code".to_vec(), mem_size: 0x2010, kind: 1 }]);
    let (mut alloc, mut mem) = machine(0x1000, 64);
    let free = alloc.free_frames();
    let (ms, _ctx) = new_program(&elf, 0x8020_1000, &mut alloc, &mut mem).unwrap();
    assert!(alloc.free_frames() < free);
    ms.release(&mut alloc, &mut mem);
    assert_eq!(alloc.free_frames(), free);
}
