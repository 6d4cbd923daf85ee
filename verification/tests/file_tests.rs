use los::file::{File, OSInode};
use los::fs::cache::{BlockCacheManager, MemBlockDevice};
use los::fs::inode::Inode;
use los::fs::structure::{DiskInode, InodeType};
use los::io::UserSlice;
use los::mem::physmem::PhysMem;

fn file_with(data: &[u8], blocks: Vec<u32>, mgr: &mut BlockCacheManager, dev: &mut MemBlockDevice) -> Inode {
    let node = Inode::new(3, 0);
    let empty = DiskInode {
        size: 0,
        direct_zone: [0; 28],
        first_level_indirect: 0,
        second_level_indirect: 0,
        node_type: InodeType::File,
    };
    node.modify_disk_inode(&empty, mgr, dev);
    node.write_at(0, data, blocks, mgr, dev);
    node
}

#[test]
fn os_inode_reads_into_user_pieces() {
    let mut dev = MemBlockDevice::new();
    let mut mgr = BlockCacheManager::new();
    let data: Vec<u8> = (1..=10u8).collect();
    let node = file_with(&data, vec![50], &mut mgr, &mut dev);
    let mut f = OSInode::new(true, false, node);
    assert!(f.readable());
    assert!(!f.writeable());
    let mut mem = PhysMem::new(100, 2);
    let pieces = vec![
        UserSlice { ppn: 100, start: 4090, end: 4096 },
        UserSlice { ppn: 101, start: 0, end: 8 },
        UserSlice { ppn: 101, start: 8, end: 16 },
    ];
    assert_eq!(f.read(&pieces, &mut mem, &mut mgr, &mut dev), 10);
    assert_eq!(f.offset, 10);
    assert_eq!(mem.read_bytes(100, 4090, 6), vec![1, 2, 3, 4, 5, 6]);
    assert_eq!(mem.read_bytes(101, 0, 8), vec![7, 8, 9, 10, 0, 0, 0, 0]);
    assert_eq!(f.read(&pieces, &mut mem, &mut mgr, &mut dev), 0);
}

#[test]
fn os_inode_read_all_appends_whole_buffers() {
    let mut dev = MemBlockDevice::new();
    let mut mgr = BlockCacheManager::new();
    let data: Vec<u8> = vec![7u8; 600];
    let node = file_with(&data, vec![50, 51], &mut mgr, &mut dev);
    let mut f = OSInode::new(true, true, node);
    let all = f.read_all(&mut mgr, &mut dev);
    // The write stops at the start of the second block, whose bytes stay zero.
    assert_eq!(all.len(), 1024);
    assert_eq!(&all[..512], &vec![7u8; 512][..]);
    assert_eq!(&all[512..600], &vec![0u8; 88][..]);
    assert_eq!(&all[600..], &vec![7u8; 424][..]);
    assert_eq!(f.offset, 600);
}

#[test]
fn os_inode_write_moves_position() {
    let mut dev = MemBlockDevice::new();
    let mut mgr = BlockCacheManager::new();
    let node = file_with(b"abc", vec![50], &mut mgr, &mut dev);
    let mut f = OSInode::new(true, true, node);
    assert_eq!(f.write(b"xy", vec![], &mut mgr, &mut dev), 2);
    assert_eq!(f.offset, 2);
    assert_eq!(f.write(b"12", vec![], &mut mgr, &mut dev), 2);
    assert_eq!(f.offset, 4);
    let mut buf = [0u8; 8];
    let node = Inode::new(3, 0);
    assert_eq!(node.read_at(0, &mut buf, &mut mgr, &mut dev), 4);
    assert_eq!(&buf[..4], b"xy12");
}
