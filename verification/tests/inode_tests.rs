use los::fs::cache::{BlockCacheManager, BlockDevice, MemBlockDevice};
use los::fs::inode::Inode;
use los::fs::structure::{DiskInode, InodeType};

fn fresh(node_type: InodeType) -> DiskInode {
    DiskInode {
        size: 0,
        direct_zone: [0; 28],
        first_level_indirect: 0,
        second_level_indirect: 0,
        node_type,
    }
}

fn root_dir(mgr: &mut BlockCacheManager, dev: &mut MemBlockDevice) -> Inode {
    let root = Inode::new(2, 0);
    root.modify_disk_inode(&fresh(InodeType::Directory), mgr, dev);
    root
}

#[test]
fn disk_inode_bytes_round_trip() {
    let mut ino = fresh(InodeType::Directory);
    ino.size = 0x0102_0304;
    ino.direct_zone[0] = 7;
    ino.direct_zone[27] = 0xdead_beef;
    ino.first_level_indirect = 9;
    ino.second_level_indirect = 10;
    let bytes = ino.to_bytes();
    assert_eq!(bytes.len(), 125);
    assert_eq!(&bytes[0..4], &[4, 3, 2, 1]);
    assert_eq!(&bytes[4..8], &[7, 0, 0, 0]);
    assert_eq!(&bytes[112..116], &[0xef, 0xbe, 0xad, 0xde]);
    assert_eq!(bytes[116], 9);
    assert_eq!(bytes[120], 10);
    assert_eq!(bytes[124], 1);
    let back = DiskInode::from_bytes(&bytes);
    assert_eq!(back.size, ino.size);
    assert_eq!(back.direct_zone, ino.direct_zone);
    assert_eq!(back.first_level_indirect, 9);
    assert_eq!(back.second_level_indirect, 10);
    assert!(back.node_type == InodeType::Directory);
}

#[test]
fn stored_inode_reads_back() {
    let mut dev = MemBlockDevice::new();
    let mut mgr = BlockCacheManager::new();
    let node = Inode::new(5, 128);
    let mut ino = fresh(InodeType::File);
    ino.size = 77;
    ino.direct_zone[1] = 33;
    node.modify_disk_inode(&ino, &mut mgr, &mut dev);
    let back = node.read_disk_inode(&mut mgr, &mut dev);
    assert_eq!(back.size, 77);
    assert_eq!(back.direct_zone[1], 33);
    assert!(back.node_type == InodeType::File);
    let other = Inode::new(5, 0).read_disk_inode(&mut mgr, &mut dev);
    assert_eq!(other.size, 0);
}

#[test]
fn create_then_find_and_ls() {
    let mut dev = MemBlockDevice::new();
    let mut mgr = BlockCacheManager::new();
    let root = root_dir(&mut mgr, &mut dev);
    let a = root.create("initproc", 1, vec![100], &Inode::new(2, 128), &mut mgr, &mut dev);
    let a = a.unwrap();
    assert_eq!(a.block_id, 2);
    assert_eq!(a.block_offset, 128);
    let b = root.create("user_shell", 2, vec![], &Inode::new(2, 256), &mut mgr, &mut dev);
    assert!(b.is_some());
    assert_eq!(root.find("initproc", &mut mgr, &mut dev), Some(1));
    assert_eq!(root.find("user_shell", &mut mgr, &mut dev), Some(2));
    assert_eq!(root.find("missing", &mut mgr, &mut dev), None);
    assert_eq!(root.ls(&mut mgr, &mut dev), vec![b"initproc".to_vec(), b"user_shell".to_vec()]);
    let dir = root.read_disk_inode(&mut mgr, &mut dev);
    assert_eq!(dir.size, 64);
    assert_eq!(dir.direct_zone[0], 100);
    assert_eq!(root.find_inode_id("user_shell", &dir, &mut mgr, &mut dev), Some(2));
    let file = a.read_disk_inode(&mut mgr, &mut dev);
    assert_eq!(file.size, 0);
    assert!(file.node_type == InodeType::File);
    let mut block = vec![0u8; 512];
    dev.read_block(100, &mut block);
    assert_eq!(&block[0..8], b"initproc");
    assert_eq!(&block[28..32], &[1, 0, 0, 0]);
}

#[test]
fn create_refuses_existing_name() {
    let mut dev = MemBlockDevice::new();
    let mut mgr = BlockCacheManager::new();
    let root = root_dir(&mut mgr, &mut dev);
    assert!(root.create("a", 1, vec![100], &Inode::new(2, 128), &mut mgr, &mut dev).is_some());
    assert!(root.create("a", 2, vec![], &Inode::new(2, 256), &mut mgr, &mut dev).is_none());
    assert_eq!(root.ls(&mut mgr, &mut dev).len(), 1);
    assert_eq!(root.find("a", &mut mgr, &mut dev), Some(1));
}

#[test]
fn file_write_grows_then_reads_back() {
    let mut dev = MemBlockDevice::new();
    let mut mgr = BlockCacheManager::new();
    let file = Inode::new(3, 0);
    file.modify_disk_inode(&fresh(InodeType::File), &mut mgr, &mut dev);
    let data: Vec<u8> = (0..100u8).collect();
    assert_eq!(file.write_at(0, &data, vec![40], &mut mgr, &mut dev), 100);
    assert_eq!(file.read_disk_inode(&mut mgr, &mut dev).size, 100);
    let mut buf = vec![0u8; 100];
    assert_eq!(file.read_at(0, &mut buf, &mut mgr, &mut dev), 100);
    assert_eq!(buf, data);
    assert_eq!(file.write_at(10, &[9, 9], vec![], &mut mgr, &mut dev), 2);
    let mut two = [0u8; 2];
    assert_eq!(file.read_at(10, &mut two, &mut mgr, &mut dev), 2);
    assert_eq!(two, [9, 9]);
    assert_eq!(file.read_disk_inode(&mut mgr, &mut dev).size, 100);
}

#[test]
fn clear_data_lists_blocks() {
    let mut dev = MemBlockDevice::new();
    let mut mgr = BlockCacheManager::new();
    let file = Inode::new(3, 0);
    file.modify_disk_inode(&fresh(InodeType::File), &mut mgr, &mut dev);
    let data = vec![1u8; 1024];
    assert_eq!(file.write_at(0, &data, vec![40, 41], &mut mgr, &mut dev), 1024);
    assert_eq!(file.clear_data(&mut mgr, &mut dev), vec![40, 41]);
}
