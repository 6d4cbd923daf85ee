use los::config::{BLOCK_SIZE, EFS_MAGIC};
use los::fs::cache::{BlockCache, BlockCacheManager, BlockDevice, MemBlockDevice};
use los::fs::structure::{BitMap, DirEntry, DiskInode, InodeType, SuperBlock};

fn empty_inode(size: u32) -> DiskInode {
    DiskInode {
        size,
        direct_zone: [0; 28],
        first_level_indirect: 0,
        second_level_indirect: 0,
        node_type: InodeType::File,
    }
}

#[test]
fn super_block_init_marks_valid() {
    let mut sb = SuperBlock::from_bytes(&[0u8; 24]);
    assert!(!sb.is_valid());
    sb.init(4096, 1, 10, 1, 4000);
    assert!(sb.is_valid());
    assert_eq!(sb.magic, EFS_MAGIC);
    assert_eq!(sb.total_block_num, 4096);
    let bytes = sb.to_bytes();
    assert_eq!(bytes.len(), 24);
    let back = SuperBlock::from_bytes(&bytes);
    assert_eq!(back.data_area_block_num, 4000);
    assert!(back.is_valid());
}

#[test]
fn block_cache_read_and_modify() {
    let mut dev = MemBlockDevice::new();
    let mut cache = BlockCache::new(3, &dev);
    assert_eq!(cache.read(0, 4), vec![0, 0, 0, 0]);
    cache.modify(10, &[1, 2, 3]);
    assert_eq!(cache.read(9, 5), vec![0, 1, 2, 3, 0]);
    cache.modify_u32(100, 0x11223344);
    assert_eq!(cache.read_u32(100), 0x11223344);
    cache.sync(&mut dev);
    let mut buf = vec![0u8; BLOCK_SIZE];
    dev.read_block(3, &mut buf);
    assert_eq!(&buf[10..13], &[1, 2, 3]);
    assert_eq!(&buf[100..104], &[0x44, 0x33, 0x22, 0x11]);
}

#[test]
fn cache_manager_sync_all_reaches_device() {
    let mut dev = MemBlockDevice::new();
    let mut mgr = BlockCacheManager::new();
    for id in 0..20usize {
        mgr.modify_u64(id, 8, id as u64 + 1, &mut dev);
    }
    for id in 0..20usize {
        assert_eq!(mgr.read_u64(id, 8, &mut dev), id as u64 + 1);
    }
    mgr.sync_all(&mut dev);
    let mut buf = vec![0u8; BLOCK_SIZE];
    dev.read_block(19, &mut buf);
    assert_eq!(buf[8], 20);
}

#[test]
fn bitmap_alloc_then_dealloc() {
    let mut dev = MemBlockDevice::new();
    let mut mgr = BlockCacheManager::new();
    let mut bm = BitMap::new(2, 1);
    assert_eq!(bm.get_block_num(), 1);
    assert_eq!(bm.allocate(&mut mgr, &mut dev), Some(0));
    assert_eq!(bm.allocate(&mut mgr, &mut dev), Some(1));
    assert_eq!(bm.allocate(&mut mgr, &mut dev), Some(2));
    bm.dealloc(&mut mgr, &mut dev, 1);
    assert_eq!(bm.allocate(&mut mgr, &mut dev), Some(1));
    assert_eq!(bm.allocate(&mut mgr, &mut dev), Some(3));
}

#[test]
fn bitmap_full_unit_moves_on() {
    let mut dev = MemBlockDevice::new();
    let mut mgr = BlockCacheManager::new();
    let mut bm = BitMap::new(0, 1);
    for i in 0..64usize {
        assert_eq!(bm.allocate(&mut mgr, &mut dev), Some(i));
    }
    assert_eq!(bm.allocate(&mut mgr, &mut dev), Some(64));
}

#[test]
fn disk_inode_sizes() {
    assert_eq!(DiskInode::data_blocks_num(0), 0);
    assert_eq!(DiskInode::data_blocks_num(1), 1);
    assert_eq!(DiskInode::data_blocks_num(512), 1);
    assert_eq!(DiskInode::data_blocks_num(513), 2);
    assert_eq!(DiskInode::total_blocks_num(28 * 512), 28);
    assert_eq!(DiskInode::total_blocks_num(29 * 512), 30);
    let inode = empty_inode(512);
    assert_eq!(inode.calc_new_blocks(29 * 512), 29);
}

#[test]
fn disk_inode_init_clears() {
    let mut inode = empty_inode(100);
    inode.direct_zone[3] = 9;
    inode.init(InodeType::Directory);
    assert_eq!(inode.size, 0);
    assert_eq!(inode.direct_zone[3], 0);
    assert!(inode.node_type == InodeType::Directory);
}

#[test]
fn disk_inode_write_then_read() {
    let mut dev = MemBlockDevice::new();
    let mut mgr = BlockCacheManager::new();
    let mut inode = empty_inode(100);
    inode.direct_zone[0] = 7;
    let data: Vec<u8> = (0..50u8).collect();
    assert_eq!(inode.write_at(10, &data, &mut mgr, &mut dev), 50);
    let mut buf = vec![0u8; 50];
    assert_eq!(inode.read_at(10, &mut buf, &mut mgr, &mut dev), 50);
    assert_eq!(buf, data);
    assert_eq!(inode.get_block_id(0, &mut mgr, &mut dev), 7);
}

#[test]
fn disk_inode_read_stops_at_end_of_file() {
    let mut dev = MemBlockDevice::new();
    let mut mgr = BlockCacheManager::new();
    let mut inode = empty_inode(20);
    inode.direct_zone[0] = 4;
    let mut buf = vec![9u8; 50];
    assert_eq!(inode.read_at(10, &mut buf, &mut mgr, &mut dev), 10);
    assert_eq!(&buf[..10], &[0u8; 10]);
    assert_eq!(buf[10], 9);
    assert_eq!(inode.read_at(30, &mut buf, &mut mgr, &mut dev), 0);
}

#[test]
fn disk_inode_push_blocks_grows_direct_zone() {
    let mut dev = MemBlockDevice::new();
    let mut mgr = BlockCacheManager::new();
    let mut inode = empty_inode(0);
    inode.push_empty_blocks(1024, vec![11, 12], &mut mgr, &mut dev);
    assert_eq!(inode.size, 1024);
    assert_eq!(inode.direct_zone[0], 11);
    assert_eq!(inode.direct_zone[1], 12);
    let freed = inode.clear_size(&mut mgr, &mut dev);
    assert_eq!(freed, vec![11, 12]);
}

#[test]
fn dir_entry_round_trip() {
    let e = DirEntry::new("initproc", 3);
    assert_eq!(e.get_inode(), 3);
    assert_eq!(e.get_name(), b"initproc".to_vec());
    let bytes = e.as_bytes();
    assert_eq!(bytes.len(), 32);
    let back = DirEntry::from_bytes(&bytes);
    assert_eq!(back.get_name(), b"initproc".to_vec());
    assert_eq!(back.get_inode(), 3);
    let empty = DirEntry::empty();
    assert_eq!(empty.get_name(), Vec::<u8>::new());
    assert_eq!(empty.get_inode(), 0);
}

#[test]
fn cache_manager_evicts_oldest_and_writes_it_back() {
    let mut dev = MemBlockDevice::new();
    let mut mgr = BlockCacheManager::new();
    mgr.modify_u32(0, 0, 0xabcd, &mut dev);
    let mut buf = vec![0u8; BLOCK_SIZE];
    dev.read_block(0, &mut buf);
    assert_eq!(buf[0], 0);
    for id in 1..16usize {
        assert_eq!(mgr.get_block(id, &mut dev), id);
    }
    assert_eq!(mgr.get_block(5, &mut dev), 5);
    dev.read_block(0, &mut buf);
    assert_eq!(buf[0], 0);
    assert_eq!(mgr.get_block(16, &mut dev), 15);
    dev.read_block(0, &mut buf);
    assert_eq!(&buf[0..4], &[0xcd, 0xab, 0, 0]);
    assert_eq!(mgr.read_u32(0, 0, &mut dev), 0xabcd);
}

#[test]
fn push_then_clear_gives_the_blocks_back() {
    let mut dev = MemBlockDevice::new();
    let mut mgr = BlockCacheManager::new();
    let mut inode = empty_inode(0);
    let blocks: Vec<u32> = (100..130).collect();
    inode.push_empty_blocks(29 * 512, blocks.clone(), &mut mgr, &mut dev);
    assert_eq!(inode.get_block_id(27, &mut mgr, &mut dev), 127);
    assert_eq!(inode.get_block_id(28, &mut mgr, &mut dev), 129);
    assert_eq!(inode.clear_size(&mut mgr, &mut dev), blocks);
}
