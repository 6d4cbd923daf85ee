use los::mem::address::{PhyAddr, PhyPageNum, SimpleRange, VirAddr, VirPageNum};
use los::mem::frame::{FrameTracker, StackFrameAllocator};
use los::mem::heap::Heap;
use los::mem::page_table::{PTEFlags, PageTable, PageTableEntry, FLAG_R, FLAG_V, FLAG_W, FLAG_X};
use los::mem::physmem::PhysMem;

fn machine(base: u64, count: u64) -> (StackFrameAllocator, PhysMem) {
    let mut alloc = StackFrameAllocator::const_new();
    alloc.init(PhyPageNum(base), PhyPageNum(base + count));
    (alloc, PhysMem::new(base, count))
}

#[test]
fn address_conversions() {
    let va = VirAddr::from(0x8020_1234u64);
    assert_eq!(va.page_offset(), 0x234);
    assert_eq!(va.floor_to_vpn().0, 0x80201);
    assert_eq!(va.ceil_to_vpn().0, 0x80202);
    assert_eq!(VirAddr::from(0x8020_1000u64).ceil_to_vpn().0, 0x80201);
    assert_eq!(VirAddr::from(VirPageNum(5)).0, 0x5000);
    let high = VirAddr::from(0xffff_ffff_ffff_f000u64);
    assert_eq!(high.0, 0x7f_ffff_f000);
    assert_eq!(u64::from(high), 0xffff_ffff_ffff_f000);
    let pa = PhyAddr::from(0x8000_0000u64);
    assert_eq!(PhyPageNum::from_aligned(pa).0, 0x80000);
    assert_eq!(PhyAddr::from(PhyPageNum(0x80000)).0, 0x8000_0000);
}

#[test]
fn vpn_indices_split_the_page_number() {
    let vpn = VirPageNum((3 << 18) | (5 << 9) | 7);
    assert_eq!(vpn.get_index(), [3, 5, 7]);
}

#[test]
fn range_iterates_in_order() {
    let r = SimpleRange::new(VirPageNum(4), VirPageNum(7));
    let mut it = r.into_iter();
    assert_eq!(it.next().map(|v| v.0), Some(4));
    assert_eq!(it.next().map(|v| v.0), Some(5));
    assert_eq!(it.next().map(|v| v.0), Some(6));
    assert_eq!(it.next().map(|v| v.0), None);
}

#[test]
fn frame_allocator_test() {
    let mut alloc = StackFrameAllocator::const_new();
    alloc.init(PhyPageNum(100), PhyPageNum(110));
    let mut first = Vec::new();
    for _ in 0..5 {
        first.push(alloc.alloc_frame().unwrap().0);
    }
    assert_eq!(first, vec![100, 101, 102, 103, 104]);
    for f in first.iter() {
        alloc.dealloc(PhyPageNum(*f));
    }
    let mut second = Vec::new();
    for _ in 0..5 {
        second.push(alloc.alloc_frame().unwrap().0);
    }
    assert_eq!(second, vec![104, 103, 102, 101, 100]);
    assert_eq!(alloc.free_frames(), 5);
    assert!(!alloc.can_dealloc(PhyPageNum(105)));
    assert!(alloc.can_dealloc(PhyPageNum(100)));
}

#[test]
fn frame_allocator_runs_out() {
    let mut alloc = StackFrameAllocator::const_new();
    alloc.init(PhyPageNum(1), PhyPageNum(2));
    assert_eq!(alloc.alloc_frame().map(|p| p.0), Some(1));
    assert!(alloc.alloc_frame().is_none());
}

#[test]
fn frame_tracker_zeroes() {
    let mut mem = PhysMem::new(10, 2);
    mem.write_u64(11, 16, 0xdead);
    let f = FrameTracker::new(PhyPageNum(11), &mut mem);
    assert_eq!(f.ppn.0, 11);
    assert_eq!(mem.read_u64(11, 16), 0);
}

#[test]
fn page_table_map_and_unmap() {
    let (mut alloc, mut mem) = machine(0x100, 16);
    let mut pt = PageTable::new(&mut alloc, &mut mem);
    let vpn = VirPageNum(0x12345);
    assert!(pt.vpn_to_pte(vpn, &mem).is_none());
    let flags = PTEFlags::from_bits_truncate(FLAG_R).union(PTEFlags::from_bits_truncate(FLAG_W));
    pt.build_reflect(vpn, PhyPageNum(0x999), flags, &mut alloc, &mut mem);
    let pte = pt.vpn_to_pte(vpn, &mem).unwrap();
    assert!(pte.is_valid());
    assert_eq!(pte.ppn().0, 0x999);
    assert!(pte.readable());
    assert!(pte.writable());
    assert!(!pte.executable());
    assert_eq!(pte.flags().bits(), FLAG_R | FLAG_W | FLAG_V);
    let other = pt.vpn_to_pte(VirPageNum(0x12346), &mem).unwrap();
    assert!(!other.is_valid());
    pt.remove_reflect(vpn, &mut mem);
    assert!(!pt.vpn_to_pte(vpn, &mem).unwrap().is_valid());
    assert_eq!(pt.address(), 0x100);
}

#[test]
fn page_table_entry_bits() {
    let e = PageTableEntry::new(PhyPageNum(0x80000), PTEFlags::from_bits_truncate(FLAG_V | FLAG_X));
    assert_eq!(e.bits, (0x80000 << 10) | 0x9);
    assert!(e.is_valid());
    assert!(e.executable());
    assert!(!e.readable());
    let mut e2 = e;
    e2.clear_valid();
    assert!(!e2.is_valid());
    assert_eq!(PageTableEntry::empty().bits, 0);
}

#[test]
fn heap_test() {
    let mut heap = Heap::empty();
    heap.init(0x1000, 0x2000);
    assert_eq!(heap.start, 0x1000);
    assert_eq!(heap.usize_list[12].len(), 1);
    let a = heap.allocate(8);
    assert_eq!(a, 0x1000);
    assert!(!heap.check_leak());
    for i in 3..12 {
        assert_eq!(heap.usize_list[i].len(), 1);
    }
    assert_eq!(heap.usize_list[12].len(), 0);
    let b = heap.allocate(5);
    assert_eq!(b, 0x1008);
    heap.dealloc(b, 5);
    heap.dealloc(a, 8);
    assert!(heap.check_leak());
    assert_eq!(heap.usize_list[12].len(), 1);
    for i in 3..12 {
        assert_eq!(heap.usize_list[i].len(), 0);
    }
}

#[test]
fn heap_out_of_memory_gives_zero() {
    let mut heap = Heap::empty();
    heap.init(0x1000, 0x1010);
    assert_eq!(heap.allocate(16), 0x1000);
    assert_eq!(heap.allocate(16), 0);
    assert_eq!(heap.alloc_cnt, 1);
}

#[test]
fn heap_init_aligns_ends() {
    let mut heap = Heap::empty();
    heap.init(0x1001, 0x101f);
    assert_eq!(heap.start, 0x1008);
    assert_eq!(heap.usize_list[4].len(), 1);
    assert_eq!(heap.usize_list[3].len(), 0);
}

#[test]
fn heap_blocks_handed_out_do_not_overlap() {
    let mut heap = Heap::empty();
    heap.init(0x1000, 0x2000);
    let mut got: Vec<(usize, usize)> = Vec::new();
    for size in [8usize, 64, 16, 512, 8, 128, 1024, 32] {
        let a = heap.allocate(size);
        assert_ne!(a, 0);
        got.push((a, size.next_power_of_two()));
    }
    for i in 0..got.len() {
        for j in 0..got.len() {
            if i != j {
                let (a, n) = got[i];
                let (b, m) = got[j];
                assert!(a + n <= b || b + m <= a);
            }
        }
    }
}

#[test]
fn frame_run_hands_out_distinct_frames() {
    let (mut alloc, _mem) = machine(0x80, 8);
    let mut seen = Vec::new();
    while let Some(f) = alloc.alloc_frame() {
        assert!(!seen.contains(&f.0));
        seen.push(f.0);
    }
    assert_eq!(seen.len(), 8);
}
