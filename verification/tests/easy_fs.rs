use std::sync::{Arc, Mutex};
use rcore_os::easy_fs::bitmap::{decomposition, Bitmap, BLOCK_BITS};
use rcore_os::easy_fs::block_cache::{block_cache_sync_all, BlockCache, BlockCacheManager, BLOCK_CACHE_SIZE};
use rcore_os::easy_fs::efs::EasyFileSystem;
use rcore_os::easy_fs::{BlockDevice, BLOCK_SZ};

struct MemDisk {
    blocks: Mutex<Vec<[u8; BLOCK_SZ]>>,
}

impl MemDisk {
    fn new(n: usize) -> Arc<MemDisk> {
        Arc::new(MemDisk { blocks: Mutex::new(vec![[0u8; BLOCK_SZ]; n]) })
    }

    fn block(&self, id: usize) -> [u8; BLOCK_SZ] {
        self.blocks.lock().unwrap()[id]
    }
}

impl BlockDevice for MemDisk {
    fn read_block(&self, block_id: usize, buf: &mut [u8]) {
        buf.copy_from_slice(&self.blocks.lock().unwrap()[block_id]);
    }

    fn write_block(&self, block_id: usize, buf: &[u8]) {
        self.blocks.lock().unwrap()[block_id].copy_from_slice(buf);
    }
}

#[test]
fn block_cache_reads_modifies_and_syncs() {
    let disk = MemDisk::new(4);
    disk.write_block(2, &[7u8; BLOCK_SZ]);
    let mut c = BlockCache::new(2, disk.clone());
    assert_eq!(c.read(10, 3), vec![7, 7, 7]);
    c.modify(10, &[1, 2, 3]);
    assert_eq!(c.read(9, 5), vec![7, 1, 2, 3, 7]);
    assert_eq!(disk.block(2)[10], 7);
    c.sync();
    assert_eq!(disk.block(2)[10..13], [1, 2, 3]);
}

#[test]
fn cache_manager_reuses_and_evicts() {
    let disk = MemDisk::new(BLOCK_CACHE_SIZE + 2);
    let mut m = BlockCacheManager::new();
    let i0 = m.get_block_cache(0, &disk);
    m.modify(i0, 0, &[42]);
    assert_eq!(m.get_block_cache(0, &disk), i0);
    assert_eq!(m.read(i0, 0, 1), vec![42]);
    // filling the cache writes the oldest block back
    for b in 1..=BLOCK_CACHE_SIZE {
        m.get_block_cache(b, &disk);
    }
    assert_eq!(disk.block(0)[0], 42);
    let i = m.get_block_cache(0, &disk);
    assert_eq!(m.read(i, 0, 1), vec![42]);
    let j = m.get_block_cache(BLOCK_CACHE_SIZE, &disk);
    m.modify(j, 5, &[9]);
    block_cache_sync_all(&mut m);
    assert_eq!(disk.block(BLOCK_CACHE_SIZE)[5], 9);
}

#[test]
fn bit_positions() {
    assert_eq!(decomposition(0), (0, 0, 0));
    assert_eq!(decomposition(70), (0, 1, 6));
    assert_eq!(decomposition(BLOCK_BITS + 65), (1, 1, 1));
}

#[test]
fn bitmap_allocates_lowest_free_bit() {
    let disk = MemDisk::new(4);
    let mut m = BlockCacheManager::new();
    let bm = Bitmap::new(1, 2);
    assert_eq!(bm.maximum(), 2 * BLOCK_BITS);
    assert_eq!(bm.allocate(&mut m, &disk), Some(0));
    assert_eq!(bm.allocate(&mut m, &disk), Some(1));
    assert_eq!(bm.allocate(&mut m, &disk), Some(2));
    assert!(bm.dealloc(&mut m, &disk, 1));
    assert_eq!(bm.allocate(&mut m, &disk), Some(1));
    // a bit read back from the device that turns out clear is left as it is
    let mut fresh = BlockCacheManager::new();
    assert!(!bm.dealloc(&mut fresh, &disk, 100));
    block_cache_sync_all(&mut m);
    assert_eq!(disk.block(1)[0], 0b111);
}

#[test]
fn bitmap_moves_to_next_block_when_full() {
    let disk = MemDisk::new(3);
    disk.write_block(0, &[0xffu8; BLOCK_SZ]);
    let mut m = BlockCacheManager::new();
    let bm = Bitmap::new(0, 2);
    assert_eq!(bm.allocate(&mut m, &disk), Some(BLOCK_BITS));
    let full = Bitmap::new(0, 1);
    assert_eq!(full.allocate(&mut m, &disk), None);
}

#[test]
fn file_system_layout() {
    let disk = MemDisk::new(4096);
    for id in [0usize, 1, 500, 4095] {
        disk.write_block(id, &[0xffu8; BLOCK_SZ]);
    }
    let mut m = BlockCacheManager::new();
    let mut efs = EasyFileSystem::create(disk.clone(), &mut m, 4096, 1).unwrap();
    // every block was cleared and written back, and the root took inode 0
    assert_eq!(disk.block(500), [0u8; BLOCK_SZ]);
    assert_eq!(disk.block(4095), [0u8; BLOCK_SZ]);
    assert_eq!(disk.block(1)[0], 1);
    assert_eq!(disk.block(1)[1..], [0u8; BLOCK_SZ - 1]);
    // super block, 1 inode bitmap block, 1024 inode blocks, 1 data bitmap block
    assert_eq!(efs.get_disk_inode_pos(0), (2, 0));
    assert_eq!(efs.get_disk_inode_pos(5), (3, 128));
    assert_eq!(efs.get_data_block_id(0), 1027);
    assert_eq!(efs.get_data_block_id(3), 1030);
    assert_eq!(efs.alloc_inode(&mut m), Some(1));
    assert_eq!(efs.alloc_inode(&mut m), Some(2));
    assert_eq!(efs.alloc_data(&mut m), Some(1027));
    assert_eq!(efs.alloc_data(&mut m), Some(1028));
    let i = m.get_block_cache(1027, &disk);
    m.modify(i, 0, &[0xabu8; 16]);
    assert!(efs.dealloc_data(&mut m, 1027));
    block_cache_sync_all(&mut m);
    // the freed block was cleared
    assert_eq!(disk.block(1027), [0u8; BLOCK_SZ]);
    assert_eq!(efs.alloc_data(&mut m), Some(1027));
}

#[test]
fn create_writes_super_block_and_root_directory() {
    let disk = MemDisk::new(4096);
    disk.write_block(2, &[0x5au8; BLOCK_SZ]);
    let mut m = BlockCacheManager::new();
    assert!(EasyFileSystem::create(disk.clone(), &mut m, 4096, 1).is_some());
    let sb = disk.block(0);
    // magic, 4096 blocks, 1 inode bitmap block, 1024 inode blocks, 1 data bitmap block, 3069 data blocks
    assert_eq!(sb[..24], [0x01, 0x00, 0x80, 0x3b, 0x00, 0x10, 0, 0, 1, 0, 0, 0, 0x00, 0x04, 0, 0, 1, 0, 0, 0, 0xfd, 0x0b, 0, 0]);
    assert_eq!(sb[24..], [0u8; BLOCK_SZ - 24]);
    let root = disk.block(2);
    assert_eq!(root[124], 1);
    for (i, b) in root.iter().enumerate() {
        if i != 124 {
            assert_eq!(*b, 0);
        }
    }
}

struct StuckDisk;

impl BlockDevice for StuckDisk {
    fn read_block(&self, _block_id: usize, buf: &mut [u8]) {
        for b in buf.iter_mut() {
            *b = 0xff;
        }
    }

    fn write_block(&self, _block_id: usize, _buf: &[u8]) {}
}

#[test]
fn create_refuses_a_device_that_loses_the_cleared_bitmap() {
    let mut m = BlockCacheManager::new();
    assert!(EasyFileSystem::create(Arc::new(StuckDisk), &mut m, 4096, 1).is_none());
}

#[test]
fn open_reads_back_the_layout_create_wrote() {
    let disk = MemDisk::new(4096);
    let mut m = BlockCacheManager::new();
    let created = EasyFileSystem::create(disk.clone(), &mut m, 4096, 1).unwrap();
    let mut fresh = BlockCacheManager::new();
    let opened = EasyFileSystem::open(disk.clone(), &mut fresh).unwrap();
    assert_eq!(opened.get_disk_inode_pos(7), created.get_disk_inode_pos(7));
    assert_eq!(opened.get_data_block_id(0), created.get_data_block_id(0));
    assert_eq!(opened.get_data_block_id(0), 1027);
    assert_eq!(opened.inode_bitmap.maximum(), 4096);
    assert_eq!(opened.data_bitmap.maximum(), 4096);
}

#[test]
fn open_refuses_a_device_without_the_magic_number() {
    let disk = MemDisk::new(16);
    let mut m = BlockCacheManager::new();
    assert!(EasyFileSystem::open(disk, &mut m).is_none());
}
