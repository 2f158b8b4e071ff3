//! Layout of the file system on disk and allocation of inodes and data blocks.
//!
//! Block 0 holds the super block; then come the inode bitmap, the inode area,
//! the data bitmap and the data area.
use vstd::prelude::*;
use std::sync::Arc;
use crate::easy_fs::{BlockDevice, BLOCK_SZ};
use crate::easy_fs::bitmap::{Bitmap, BLOCK_BITS, bit_of, block_full, lemma_zero_block_bits};
use crate::easy_fs::block_cache::BlockCacheManager;
use vstd::bytes::{spec_u32_from_le_bytes, spec_u32_to_le_bytes, u32_from_le_bytes, u32_to_le_bytes};

verus! {

/// Size of an on-disk inode in bytes.
pub const DISK_INODE_SIZE: usize = 128;

/// Magic number that opens the super block.
pub const EFS_MAGIC: u32 = 0x3b80_0001;

/// Size of the super block in bytes.
pub const SUPER_BLOCK_SIZE: usize = 24;

/// Offset in an on-disk inode of the byte that tells a directory (1) from a
/// file (0).
pub const INODE_TYPE_OFFSET: usize = 124;

/// The super block, at offset 0 of block 0: the magic number, then the
/// total number of blocks and the sizes in blocks of the inode bitmap, the
/// inode area, the data bitmap and the data area, each a little-endian `u32`.
pub open spec fn super_block_bytes(total_blocks: u32, inode_bitmap_blocks: u32, inode_area: u32, data_bitmap: u32, data_area: u32) -> Seq<u8> {
    spec_u32_to_le_bytes(EFS_MAGIC) + spec_u32_to_le_bytes(total_blocks) + spec_u32_to_le_bytes(inode_bitmap_blocks)
        + spec_u32_to_le_bytes(inode_area) + spec_u32_to_le_bytes(data_bitmap) + spec_u32_to_le_bytes(data_area)
}

/// The super block of a file system of `total_blocks` blocks with
/// `inode_bitmap_blocks` blocks of inode bitmap.
pub open spec fn formatted_super_block(total_blocks: u32, inode_bitmap_blocks: u32) -> Seq<u8> {
    let inode_area = inode_area_blocks(inode_bitmap_blocks * BLOCK_BITS);
    let data_total = total_blocks - 1 - inode_bitmap_blocks - inode_area;
    let data_bitmap = data_bitmap_blocks(data_total);
    super_block_bytes(total_blocks, inode_bitmap_blocks, inode_area as u32, data_bitmap as u32, (data_total - data_bitmap) as u32)
}

/// A fresh on-disk inode: size 0, no blocks, and the type byte set for a
/// directory.
pub open spec fn fresh_disk_inode(is_dir: bool) -> Seq<u8> {
    Seq::new(DISK_INODE_SIZE as nat, |i: int| if i == INODE_TYPE_OFFSET && is_dir { 1u8 } else { 0u8 })
}

/// The fields of super block bytes `sb` (at least `SUPER_BLOCK_SIZE` long):
/// the five block counts when the magic number is right, `None` otherwise.
pub open spec fn super_block_fields(sb: Seq<u8>) -> Option<(u32, u32, u32, u32, u32)> {
    if spec_u32_from_le_bytes(sb.subrange(0, 4)) == EFS_MAGIC {
        Some((
            spec_u32_from_le_bytes(sb.subrange(4, 8)),
            spec_u32_from_le_bytes(sb.subrange(8, 12)),
            spec_u32_from_le_bytes(sb.subrange(12, 16)),
            spec_u32_from_le_bytes(sb.subrange(16, 20)),
            spec_u32_from_le_bytes(sb.subrange(20, 24)),
        ))
    } else {
        None
    }
}

/// Law: a super block reads back as the counts it was written with.
pub proof fn lemma_super_block_round_trip(total_blocks: u32, inode_bitmap_blocks: u32, inode_area: u32, data_bitmap: u32, data_area: u32)
    ensures
        super_block_fields(super_block_bytes(total_blocks, inode_bitmap_blocks, inode_area, data_bitmap, data_area))
            == Some((total_blocks, inode_bitmap_blocks, inode_area, data_bitmap, data_area)),
{
    vstd::bytes::lemma_auto_spec_u32_to_from_le_bytes();
    let sb = super_block_bytes(total_blocks, inode_bitmap_blocks, inode_area, data_bitmap, data_area);
    assert(sb.subrange(0, 4) =~= spec_u32_to_le_bytes(EFS_MAGIC));
    assert(sb.subrange(4, 8) =~= spec_u32_to_le_bytes(total_blocks));
    assert(sb.subrange(8, 12) =~= spec_u32_to_le_bytes(inode_bitmap_blocks));
    assert(sb.subrange(12, 16) =~= spec_u32_to_le_bytes(inode_area));
    assert(sb.subrange(16, 20) =~= spec_u32_to_le_bytes(data_bitmap));
    assert(sb.subrange(20, 24) =~= spec_u32_to_le_bytes(data_area));
}

/// The bytes of a super block.
pub fn encode_super_block(total_blocks: u32, inode_bitmap_blocks: u32, inode_area: u32, data_bitmap: u32, data_area: u32) -> (bytes: Vec<u8>)
    ensures
        bytes@ == super_block_bytes(total_blocks, inode_bitmap_blocks, inode_area, data_bitmap, data_area),
        bytes@.len() == SUPER_BLOCK_SIZE,
{
    let mut bytes = u32_to_le_bytes(EFS_MAGIC);
    let mut field = u32_to_le_bytes(total_blocks);
    bytes.append(&mut field);
    let mut field = u32_to_le_bytes(inode_bitmap_blocks);
    bytes.append(&mut field);
    let mut field = u32_to_le_bytes(inode_area);
    bytes.append(&mut field);
    let mut field = u32_to_le_bytes(data_bitmap);
    bytes.append(&mut field);
    let mut field = u32_to_le_bytes(data_area);
    bytes.append(&mut field);
    bytes
}

/// The bytes of a fresh on-disk inode of a directory or a file.
pub fn new_disk_inode(is_dir: bool) -> (bytes: Vec<u8>)
    ensures
        bytes@ == fresh_disk_inode(is_dir),
{
    let mut bytes: Vec<u8> = vec![0u8; DISK_INODE_SIZE];
    if is_dir {
        bytes.set(INODE_TYPE_OFFSET, 1u8);
    }
    assert(bytes@ =~= fresh_disk_inode(is_dir));
    bytes
}

/// Law: the super block that `create` writes opens as the layout that
/// `create` computes: its magic number is right, its areas fit, and a file
/// system opened from it is laid out over `total_blocks` blocks with
/// `inode_bitmap_blocks` blocks of inode bitmap.
pub proof fn lemma_open_after_create<D: BlockDevice>(total_blocks: u32, inode_bitmap_blocks: u32, efs: EasyFileSystem<D>)
    requires
        inode_bitmap_blocks + inode_area_blocks(inode_bitmap_blocks * BLOCK_BITS) + 1 <= total_blocks,
    ensures
        super_block_fields(formatted_super_block(total_blocks, inode_bitmap_blocks)) matches Some((t, ibb, iab, dbb, dab))
            && 1 + ibb + iab + dbb <= u32::MAX,
        efs.opened_from(formatted_super_block(total_blocks, inode_bitmap_blocks)) ==> efs.laid_out(total_blocks, inode_bitmap_blocks),
{
    let inode_area = inode_area_blocks(inode_bitmap_blocks * BLOCK_BITS);
    let data_total = total_blocks - 1 - inode_bitmap_blocks - inode_area;
    let data_bitmap = data_bitmap_blocks(data_total);
    assert(inode_area >= 0) by (nonlinear_arith)
        requires inode_area == (inode_bitmap_blocks * 4096 * 128 + 511) / 512, inode_bitmap_blocks >= 0;
    assert(0 <= data_bitmap <= data_total) by (nonlinear_arith)
        requires data_total >= 0, data_bitmap == (data_total + 4096) / 4097;
    lemma_super_block_round_trip(total_blocks, inode_bitmap_blocks, inode_area as u32, data_bitmap as u32,
        (data_total - data_bitmap) as u32);
}

/// A file system on a block device.
pub struct EasyFileSystem<D: BlockDevice> {
    /// The device.
    pub block_device: Arc<D>,
    /// Bitmap of allocated inodes.
    pub inode_bitmap: Bitmap,
    /// Bitmap of allocated data blocks.
    pub data_bitmap: Bitmap,
    inode_area_start_block: u32,
    data_area_start_block: u32,
}

/// Number of inode blocks needed for `inode_num` inodes.
pub open spec fn inode_area_blocks(inode_num: int) -> int {
    (inode_num * DISK_INODE_SIZE + BLOCK_SZ - 1) / (BLOCK_SZ as int)
}

/// Number of data bitmap blocks for `data_total` blocks of data bitmap and
/// data together: one bitmap block covers 4096 data blocks, so the count is
/// `data_total / 4097` rounded up.
pub open spec fn data_bitmap_blocks(data_total: int) -> int {
    (data_total + 4096) / 4097
}

/// Law: the layout has room for everything its bitmaps hand out. The inode
/// area holds an inode for every bit of the inode bitmap, and the data
/// bitmap has a bit for every data block that remains once the bitmap itself
/// is taken out of the data blocks.
pub proof fn lemma_layout_covers(inode_bitmap_blocks: int, data_total: int)
    requires
        inode_bitmap_blocks >= 0,
        data_total >= 0,
    ensures
        inode_area_blocks(inode_bitmap_blocks * BLOCK_BITS) * (BLOCK_SZ / DISK_INODE_SIZE) >= inode_bitmap_blocks * BLOCK_BITS,
        0 <= data_bitmap_blocks(data_total) <= data_total,
        data_bitmap_blocks(data_total) * BLOCK_BITS >= data_total - data_bitmap_blocks(data_total),
{
    let n = inode_bitmap_blocks;
    assert(inode_area_blocks(n * 4096) == n * 1024) by (nonlinear_arith)
        requires n >= 0, inode_area_blocks(n * 4096) == (n * 4096 * 128 + 511) / 512;
    assert(n * 1024 * 4 == n * 4096) by (nonlinear_arith);
    assert(BLOCK_SZ / DISK_INODE_SIZE == 4);
    let d = data_total;
    let b = data_bitmap_blocks(d);
    assert(0 <= b <= d && b * 4096 >= d - b) by (nonlinear_arith)
        requires d >= 0, b == (d + 4096) / 4097;
}

impl<D: BlockDevice> EasyFileSystem<D> {
    /// The device.
    pub closed spec fn device(&self) -> Arc<D> {
        self.block_device
    }

    /// The inode bitmap.
    pub closed spec fn inode_map(&self) -> Bitmap {
        self.inode_bitmap
    }

    /// The data bitmap.
    pub closed spec fn data_map(&self) -> Bitmap {
        self.data_bitmap
    }

    /// First block of the inode area.
    pub closed spec fn inode_area_start(&self) -> u32 {
        self.inode_area_start_block
    }

    /// First block of the data area.
    pub closed spec fn data_area_start(&self) -> u32 {
        self.data_area_start_block
    }

    /// Whether the file system is laid out over `total_blocks` blocks with
    /// `inode_bitmap_blocks` blocks of inode bitmap: the super block, then the
    /// inode bitmap, as many inode blocks as the bitmap has bits, and the rest
    /// split between the data bitmap and the data blocks it covers.
    pub open spec fn laid_out(&self, total_blocks: u32, inode_bitmap_blocks: u32) -> bool {
        let inode_total = inode_bitmap_blocks + inode_area_blocks(inode_bitmap_blocks * BLOCK_BITS);
        let data_total = total_blocks - 1 - inode_total;
        &&& self.inode_map().start() == 1
        &&& self.inode_map().num_blocks() == inode_bitmap_blocks
        &&& self.inode_area_start() == 1 + inode_bitmap_blocks
        &&& self.data_map().start() == 1 + inode_total
        &&& self.data_map().num_blocks() == data_bitmap_blocks(data_total)
        &&& self.data_area_start() == 1 + inode_total + data_bitmap_blocks(data_total)
    }

    /// Formats `total_blocks` blocks of `block_device` as a file system with
    /// `inode_bitmap_blocks` blocks of inode bitmap: every block is cleared,
    /// the super block is written to block 0, the root directory takes inode
    /// 0 and gets a fresh directory inode, and the cache is written back.
    ///
    /// Clearing more blocks than the cache holds writes the inode bitmap back
    /// to the device, and it is read back from there to allocate the root
    /// inode. Returns `None` when the bitmap read back does not hand out
    /// inode 0 (a device that kept the zeros always does); then the root
    /// inode is not written and nothing more is written back.
    #[verifier::rlimit(80)]
    #[verifier::spinoff_prover]
    pub fn create(block_device: Arc<D>, manager: &mut BlockCacheManager<D>, total_blocks: u32, inode_bitmap_blocks: u32) -> (efs: Option<Self>)
        requires
            old(manager).wf(),
            inode_bitmap_blocks > 0,
            inode_bitmap_blocks + inode_area_blocks(inode_bitmap_blocks * BLOCK_BITS) + 1 <= total_blocks,
            inode_bitmap_blocks * BLOCK_BITS <= usize::MAX,
        ensures
            final(manager).wf(),
            forall|b: usize| b < total_blocks ==> #[trigger] final(manager).written(b),
            forall|k: int| 0 <= k < final(manager).caches().len() && #[trigger] final(manager).caches()[k].id() == 0
                ==> final(manager).caches()[k].data().subrange(0, SUPER_BLOCK_SIZE as int)
                    == formatted_super_block(total_blocks, inode_bitmap_blocks),
            forall|k: int| 0 <= k < final(manager).caches().len() && #[trigger] final(manager).caches()[k].id() < total_blocks
                && final(manager).caches()[k].id() != 0
                && !(1 <= final(manager).caches()[k].id() < 1 + inode_bitmap_blocks)
                && !(efs is Some && final(manager).caches()[k].id() == 1 + inode_bitmap_blocks)
                ==> final(manager).caches()[k].data() == Seq::new(BLOCK_SZ as nat, |b: int| 0u8),
            efs is None ==> (final(manager).holds(1) ==> bit_of(final(manager).block_data(1), 0)),
            efs matches Some(e) ==> {
                &&& e.device() == block_device
                &&& e.laid_out(total_blocks, inode_bitmap_blocks)
                &&& forall|k: int| 0 <= k < final(manager).caches().len() ==> !(#[trigger] final(manager).caches()[k]).is_modified()
                &&& forall|k: int| 0 <= k < final(manager).caches().len()
                    && #[trigger] final(manager).caches()[k].id() == 1 + inode_bitmap_blocks
                    ==> final(manager).caches()[k].data().subrange(0, DISK_INODE_SIZE as int) == fresh_disk_inode(true)
                &&& final(manager).holds(1) ==> bit_of(final(manager).block_data(1), 0)
            },
    {
        let inode_bitmap = Bitmap::new(1, inode_bitmap_blocks as usize);
        proof {
            assert(inode_bitmap_blocks * BLOCK_BITS <= 0x1_0000_0000 * 4096) by (nonlinear_arith)
                requires inode_bitmap_blocks <= u32::MAX;
        }
        let inode_num = (inode_bitmap_blocks as u64) * (BLOCK_BITS as u64);
        let inode_area = ((inode_num * (DISK_INODE_SIZE as u64) + (BLOCK_SZ as u64) - 1) / (BLOCK_SZ as u64)) as u32;
        let inode_total_blocks = inode_bitmap_blocks + inode_area;
        let data_total_blocks = total_blocks - 1 - inode_total_blocks;
        let data_bitmap_blocks = ((data_total_blocks as u64 + 4096) / 4097) as u32;
        proof {
            assert(data_bitmap_blocks <= data_total_blocks);
        }
        let data_area_blocks = data_total_blocks - data_bitmap_blocks;
        let data_bitmap = Bitmap::new((1 + inode_total_blocks) as usize, data_bitmap_blocks as usize);
        let mut efs = EasyFileSystem {
            block_device,
            inode_bitmap,
            data_bitmap,
            inode_area_start_block: 1 + inode_bitmap_blocks,
            data_area_start_block: 1 + inode_total_blocks + data_bitmap_blocks,
        };
        let zeros: Vec<u8> = vec![0u8; BLOCK_SZ];
        let ghost zero_block = Seq::new(BLOCK_SZ as nat, |b: int| 0u8);
        assert(zeros@ =~= zero_block);
        let mut i: u32 = 0;
        while i < total_blocks
            invariant
                i <= total_blocks,
                manager.wf(),
                zeros@ == zero_block,
                zero_block == Seq::new(BLOCK_SZ as nat, |b: int| 0u8),
                forall|k: int| 0 <= k < manager.caches().len() && #[trigger] manager.caches()[k].id() < i
                    ==> manager.caches()[k].data() == zero_block,
                forall|b: usize| b < i ==> #[trigger] manager.written(b),
            decreases total_blocks - i,
        {
            let ghost c0 = manager.caches();
            let idx = manager.get_block_cache(i as usize, &efs.block_device);
            let ghost c1 = manager.caches();
            manager.modify(idx, 0, zeros.as_slice());
            proof {
                let c2 = manager.caches();
                assert(c1[idx as int].wf());
                assert(c2[idx as int].data() =~= zero_block);
                assert forall|k: int| 0 <= k < c2.len() && #[trigger] c2[k].id() < i + 1 implies c2[k].data() == zero_block by {
                    if k != idx {
                        assert(c2[k] == c1[k]);
                        assert(c0.contains(c1[k]));
                        let k0 = choose|k0: int| 0 <= k0 < c0.len() && c0[k0] == c1[k];
                        if c1[k].id() == i {
                            if k < idx {
                                assert(c1[k].id() != c1[idx as int].id());
                            } else {
                                assert(c1[idx as int].id() != c1[k].id());
                            }
                        }
                        assert(c0[k0].id() < i);
                    }
                }
                assert forall|b: usize| b < i + 1 implies #[trigger] manager.written(b) by {
                    if b < i {
                        assert(manager.written(b));
                    }
                }
            }
            i = i + 1;
        }
        let ghost c_zeroed = manager.caches();
        let idx0 = manager.get_block_cache(0, &efs.block_device);
        let ghost c_got = manager.caches();
        let sb = encode_super_block(total_blocks, inode_bitmap_blocks, inode_area, data_bitmap_blocks, data_area_blocks);
        proof {
            assert(c_got[idx0 as int].wf());
            assert(inode_area == inode_area_blocks(inode_bitmap_blocks * BLOCK_BITS));
            assert(sb@ == formatted_super_block(total_blocks, inode_bitmap_blocks));
        }
        manager.modify(idx0, 0, sb.as_slice());
        let ghost c_super = manager.caches();
        proof {
            assert forall|k: int| 0 <= k < c_super.len() && #[trigger] c_super[k].id() < total_blocks && c_super[k].id() != 0
                implies c_super[k].data() == zero_block by {
                assert(k != idx0);
                assert(c_super[k] == c_got[k]);
                assert(c_zeroed.contains(c_got[k]));
                let k0 = choose|k0: int| 0 <= k0 < c_zeroed.len() && c_zeroed[k0] == c_got[k];
                assert(c_zeroed[k0].id() < total_blocks);
            }
            assert forall|k: int| 0 <= k < c_super.len() && #[trigger] c_super[k].id() == 0
                implies c_super[k].data().subrange(0, SUPER_BLOCK_SIZE as int) == formatted_super_block(total_blocks, inode_bitmap_blocks) by {
                if k != idx0 {
                    if k < idx0 {
                        assert(c_super[k].id() != c_super[idx0 as int].id());
                    } else {
                        assert(c_super[idx0 as int].id() != c_super[k].id());
                    }
                }
                assert(c_super[k].data().subrange(0, SUPER_BLOCK_SIZE as int) =~= sb@);
            }
            if efs.inode_map().all_cached(manager) {
                assert(efs.inode_map().covers(1));
                assert(manager.holds(1));
            }
            if manager.holds(1) {
                let k = choose|k: int| 0 <= k < c_super.len() && #[trigger] c_super[k].id() == 1usize;
                manager.lemma_block_data(k);
                lemma_zero_block_bits(0);
                assert(!efs.inode_map().cached_bit(manager, 0));
                assert(!block_full(manager.block_data(1)));
            }
        }
        let ghost m_super = *manager;
        let root = efs.alloc_inode(manager);
        let ghost c_alloc = manager.caches();
        proof {
            assert forall|k: int| 0 <= k < c_alloc.len() && #[trigger] c_alloc[k].id() < total_blocks && c_alloc[k].id() != 0
                && !(1 <= c_alloc[k].id() < 1 + inode_bitmap_blocks) implies c_alloc[k].data() == zero_block by {
                assert(!efs.inode_map().covers(c_alloc[k].id()));
                assert(c_super.contains(c_alloc[k]));
                let k0 = choose|k0: int| 0 <= k0 < c_super.len() && c_super[k0] == c_alloc[k];
                assert(c_super[k0].id() < total_blocks);
            }
            assert forall|k: int| 0 <= k < c_alloc.len() && #[trigger] c_alloc[k].id() == 0
                implies c_alloc[k].data().subrange(0, SUPER_BLOCK_SIZE as int) == formatted_super_block(total_blocks, inode_bitmap_blocks) by {
                assert(!efs.inode_map().covers(c_alloc[k].id()));
                assert(c_super.contains(c_alloc[k]));
                let k0 = choose|k0: int| 0 <= k0 < c_super.len() && c_super[k0] == c_alloc[k];
            }
            if !(root == Some(0u32)) && manager.holds(1) {
                assert(!m_super.holds(1));
                let k = choose|k: int| 0 <= k < c_alloc.len() && #[trigger] c_alloc[k].id() == 1usize;
                manager.lemma_block_data(k);
                if c_super.contains(c_alloc[k]) {
                    let k0 = choose|k0: int| 0 <= k0 < c_super.len() && c_super[k0] == c_alloc[k];
                    assert(m_super.caches()[k0].id() == 1usize);
                    assert(false);
                }
                match root {
                    Some(r) => {
                        let pos = choose|pos: usize| {
                            &&& r == #[verifier::truncate] (pos as u32)
                            &&& pos < inode_bitmap_blocks * BLOCK_BITS
                            &&& manager.holds((1 + pos / BLOCK_BITS) as usize)
                            &&& bit_of(#[trigger] manager.block_data((1 + pos / BLOCK_BITS) as usize), (pos % BLOCK_BITS) as int)
                            &&& forall|c: int| 0 <= c < pos % BLOCK_BITS
                                ==> #[trigger] bit_of(manager.block_data((1 + pos / BLOCK_BITS) as usize), c)
                            &&& forall|j: int| 0 <= j < c_alloc.len() && c_alloc[j].id() != 1 + pos / BLOCK_BITS
                                ==> c_super.contains(#[trigger] c_alloc[j])
                                    || (efs.inode_map().covers(c_alloc[j].id()) && block_full(c_alloc[j].data()))
                        };
                        if pos / BLOCK_BITS == 0 {
                            assert(pos % BLOCK_BITS == pos);
                            assert(pos != 0);
                            assert(bit_of(manager.block_data(1), 0));
                        } else {
                            assert(c_alloc[k].id() != 1 + pos / BLOCK_BITS);
                            assert(block_full(c_alloc[k].data()));
                        }
                    },
                    None => {
                        assert(block_full(c_alloc[k].data()));
                    },
                }
            }
        }
        match root {
            Some(0) => {},
            _ => {
                return None;
            },
        }
        let ghost m_alloc = *manager;
        let (root_block, root_offset) = efs.get_disk_inode_pos(0);
        let idxr = manager.get_block_cache(root_block as usize, &efs.block_device);
        let ghost c_root_got = manager.caches();
        let root_record = new_disk_inode(true);
        proof {
            assert(c_root_got[idxr as int].wf());
        }
        manager.modify(idxr, root_offset, root_record.as_slice());
        let ghost c_root = manager.caches();
        proof {
            assert forall|k: int| 0 <= k < c_root.len() && k != idxr implies #[trigger] c_alloc.contains(c_root[k]) by {
                assert(c_root[k] == c_root_got[k]);
            }
            assert forall|k: int| 0 <= k < c_root.len() && #[trigger] c_root[k].id() < total_blocks && c_root[k].id() != 0
                && !(1 <= c_root[k].id() < 1 + inode_bitmap_blocks) && c_root[k].id() != 1 + inode_bitmap_blocks
                implies c_root[k].data() == zero_block by {
                assert(k != idxr);
                assert(c_alloc.contains(c_root[k]));
                let k0 = choose|k0: int| 0 <= k0 < c_alloc.len() && c_alloc[k0] == c_root[k];
                assert(c_alloc[k0].id() < total_blocks);
            }
            assert forall|k: int| 0 <= k < c_root.len() && #[trigger] c_root[k].id() == 0
                implies c_root[k].data().subrange(0, SUPER_BLOCK_SIZE as int) == formatted_super_block(total_blocks, inode_bitmap_blocks) by {
                assert(k != idxr);
                assert(c_alloc.contains(c_root[k]));
                let k0 = choose|k0: int| 0 <= k0 < c_alloc.len() && c_alloc[k0] == c_root[k];
                assert(c_alloc[k0].id() == 0);
            }
            assert forall|k: int| 0 <= k < c_root.len() && #[trigger] c_root[k].id() == 1 + inode_bitmap_blocks
                implies c_root[k].data().subrange(0, DISK_INODE_SIZE as int) == fresh_disk_inode(true) by {
                if k != idxr {
                    if k < idxr {
                        assert(c_root[k].id() != c_root[idxr as int].id());
                    } else {
                        assert(c_root[idxr as int].id() != c_root[k].id());
                    }
                }
                assert(c_root[k].data().subrange(0, DISK_INODE_SIZE as int) =~= root_record@);
            }
            if manager.holds(1) {
                let k = choose|k: int| 0 <= k < c_root.len() && #[trigger] c_root[k].id() == 1usize;
                manager.lemma_block_data(k);
                assert(k != idxr);
                assert(c_alloc.contains(c_root[k]));
                let k0 = choose|k0: int| 0 <= k0 < c_alloc.len() && c_alloc[k0] == c_root[k];
                m_alloc.lemma_block_data(k0);
                let pos = choose|pos: usize| {
                    &&& 0u32 == #[verifier::truncate] (pos as u32)
                    &&& pos < inode_bitmap_blocks * BLOCK_BITS
                    &&& m_alloc.holds((1 + pos / BLOCK_BITS) as usize)
                    &&& bit_of(#[trigger] m_alloc.block_data((1 + pos / BLOCK_BITS) as usize), (pos % BLOCK_BITS) as int)
                    &&& forall|j: int| 0 <= j < c_alloc.len() && c_alloc[j].id() != 1 + pos / BLOCK_BITS
                        ==> c_super.contains(#[trigger] c_alloc[j])
                            || (efs.inode_map().covers(c_alloc[j].id()) && block_full(c_alloc[j].data()))
                    &&& m_super.holds(1) && !block_full(m_super.block_data(1)) ==> pos < BLOCK_BITS
                };
                if pos / BLOCK_BITS == 0 {
                    assert(pos % BLOCK_BITS == pos);
                    assert(pos == 0);
                } else {
                    assert(c_alloc[k0].id() != 1 + pos / BLOCK_BITS);
                    if c_super.contains(c_alloc[k0]) {
                        let k1 = choose|k1: int| 0 <= k1 < c_super.len() && c_super[k1] == c_alloc[k0];
                        assert(m_super.caches()[k1].id() == 1usize);
                        assert(!m_super.holds(1));
                    }
                    assert(block_full(c_alloc[k0].data()));
                }
                assert(bit_of(manager.block_data(1), 0));
            }
        }
        let ghost m_root = *manager;
        manager.sync_all();
        proof {
            assert forall|j: int| 0 <= j < manager.caches().len() implies !(#[trigger] manager.caches()[j]).is_modified() by {
                assert(manager.caches()[j].id() == m_root.caches()[j].id());
            }
            if manager.holds(1) {
                let k = choose|k: int| 0 <= k < manager.caches().len() && #[trigger] manager.caches()[k].id() == 1usize;
                manager.lemma_block_data(k);
                m_root.lemma_block_data(k);
            }
        }
        Some(efs)
    }

    /// Whether the file system is the one that super block bytes `sb`
    /// describe: the inode bitmap right after the super block, then the
    /// inode area, the data bitmap and the data area, of the sizes `sb`
    /// gives.
    pub open spec fn opened_from(&self, sb: Seq<u8>) -> bool {
        super_block_fields(sb) matches Some((total, ibb, iab, dbb, dab)) && {
            &&& self.inode_map().start() == 1
            &&& self.inode_map().num_blocks() == ibb
            &&& self.inode_area_start() == 1 + ibb
            &&& self.data_map().start() == 1 + ibb + iab
            &&& self.data_map().num_blocks() == dbb
            &&& self.data_area_start() == 1 + ibb + iab + dbb
        }
    }

    /// Opens the file system on `block_device` from its super block in
    /// block 0. Returns `None` when the magic number is wrong, or when the
    /// areas it gives do not fit below block 2^32.
    pub fn open(block_device: Arc<D>, manager: &mut BlockCacheManager<D>) -> (efs: Option<Self>)
        requires
            old(manager).wf(),
        ensures
            final(manager).wf(),
            final(manager).holds(0),
            ({
                let sb = final(manager).block_data(0).subrange(0, SUPER_BLOCK_SIZE as int);
                match super_block_fields(sb) {
                    Some((total, ibb, iab, dbb, dab)) => if 1 + ibb + iab + dbb <= u32::MAX {
                        efs matches Some(e) && e.device() == block_device && e.opened_from(sb)
                    } else {
                        efs is None
                    },
                    None => efs is None,
                }
            }),
    {
        let idx = manager.get_block_cache(0, &block_device);
        proof {
            assert(manager.caches()[idx as int].wf());
            manager.lemma_block_data(idx as int);
        }
        let ghost data = manager.caches()[idx as int].data();
        let magic = manager.read(idx, 0, 4);
        let magic = u32_from_le_bytes(magic.as_slice());
        let f1 = manager.read(idx, 4, 4);
        let f2 = manager.read(idx, 8, 4);
        let f3 = manager.read(idx, 12, 4);
        let f4 = manager.read(idx, 16, 4);
        let f5 = manager.read(idx, 20, 4);
        let _total_blocks = u32_from_le_bytes(f1.as_slice());
        let inode_bitmap_blocks = u32_from_le_bytes(f2.as_slice());
        let inode_area_blocks = u32_from_le_bytes(f3.as_slice());
        let data_bitmap_blocks = u32_from_le_bytes(f4.as_slice());
        let _data_area_blocks = u32_from_le_bytes(f5.as_slice());
        proof {
            let sb = data.subrange(0, SUPER_BLOCK_SIZE as int);
            assert(sb.subrange(0, 4) =~= data.subrange(0, 4));
            assert(sb.subrange(4, 8) =~= data.subrange(4, 8));
            assert(sb.subrange(8, 12) =~= data.subrange(8, 12));
            assert(sb.subrange(12, 16) =~= data.subrange(12, 16));
            assert(sb.subrange(16, 20) =~= data.subrange(16, 20));
            assert(sb.subrange(20, 24) =~= data.subrange(20, 24));
        }
        if magic != EFS_MAGIC {
            return None;
        }
        if inode_bitmap_blocks as u64 + inode_area_blocks as u64 + data_bitmap_blocks as u64 + 1 > u32::MAX as u64 {
            return None;
        }
        let inode_total_blocks = inode_bitmap_blocks + inode_area_blocks;
        let efs = EasyFileSystem {
            block_device,
            inode_bitmap: Bitmap::new(1, inode_bitmap_blocks as usize),
            data_bitmap: Bitmap::new((1 + inode_total_blocks) as usize, data_bitmap_blocks as usize),
            inode_area_start_block: 1 + inode_bitmap_blocks,
            data_area_start_block: 1 + inode_total_blocks + data_bitmap_blocks,
        };
        Some(efs)
    }

    /// Block and byte offset of inode `inode_id`: four inodes share a block.
    pub fn get_disk_inode_pos(&self, inode_id: u32) -> (pos: (u32, usize))
        requires
            self.inode_area_start() + inode_id / 4 <= u32::MAX,
        ensures
            pos.0 == self.inode_area_start() + inode_id / 4,
            pos.1 == (inode_id % 4) * DISK_INODE_SIZE,
    {
        let inode_size = DISK_INODE_SIZE;
        let inodes_per_block = (BLOCK_SZ / inode_size) as u32;
        let block_id = self.inode_area_start_block + inode_id / inodes_per_block;
        (block_id, (inode_id % inodes_per_block) as usize * inode_size)
    }

    /// Disk block of data block `data_block_id`.
    pub fn get_data_block_id(&self, data_block_id: u32) -> (id: u32)
        requires
            self.data_area_start() + data_block_id <= u32::MAX,
        ensures
            id == self.data_area_start() + data_block_id,
    {
        self.data_area_start_block + data_block_id
    }

    /// Allocates an inode: the lowest clear bit of the inode bitmap. A bitmap
    /// that is cached whole must have a free inode; one read from the device
    /// may turn out full, and then `None` is returned.
    pub fn alloc_inode(&mut self, manager: &mut BlockCacheManager<D>) -> (id: Option<u32>)
        requires
            old(manager).wf(),
            old(self).inode_map().start() + old(self).inode_map().num_blocks() <= usize::MAX,
            old(self).inode_map().num_blocks() * BLOCK_BITS <= usize::MAX,
            old(self).inode_map().all_cached(old(manager)) ==> exists|q: int|
                0 <= q < old(self).inode_map().num_blocks() * BLOCK_BITS && !#[trigger] old(self).inode_map().cached_bit(old(manager), q),
        ensures
            final(manager).wf(),
            *final(self) == *old(self),
            forall|k: int| 0 <= k < final(manager).caches().len() && !old(self).inode_map().covers(#[trigger] final(manager).caches()[k].id())
                ==> old(manager).caches().contains(final(manager).caches()[k]),
            id matches Some(i) ==> exists|pos: usize| {
                &&& i == pos as u32
                &&& pos < old(self).inode_map().num_blocks() * BLOCK_BITS
                &&& final(manager).holds((old(self).inode_map().start() + pos / BLOCK_BITS) as usize)
                &&& bit_of(#[trigger] final(manager).block_data((old(self).inode_map().start() + pos / BLOCK_BITS) as usize),
                    (pos % BLOCK_BITS) as int)
                &&& forall|c: int| 0 <= c < pos % BLOCK_BITS
                    ==> #[trigger] bit_of(final(manager).block_data((old(self).inode_map().start() + pos / BLOCK_BITS) as usize), c)
                &&& old(self).inode_map().num_blocks() > 0 && old(manager).holds(old(self).inode_map().start())
                    && !block_full(old(manager).block_data(old(self).inode_map().start())) ==> pos < BLOCK_BITS
                &&& old(self).inode_map().all_cached(old(manager)) ==> {
                    &&& !old(self).inode_map().cached_bit(old(manager), pos as int)
                    &&& forall|q: int| 0 <= q < pos ==> #[trigger] old(self).inode_map().cached_bit(old(manager), q)
                }
                &&& forall|k: int| 0 <= k < final(manager).caches().len()
                    && final(manager).caches()[k].id() != old(self).inode_map().start() + pos / BLOCK_BITS
                    ==> old(manager).caches().contains(#[trigger] final(manager).caches()[k])
                        || (old(self).inode_map().covers(final(manager).caches()[k].id()) && block_full(final(manager).caches()[k].data()))
                &&& old(self).inode_map().all_cached(old(manager)) ==> {
                    let b = (old(self).inode_map().start() + pos / BLOCK_BITS) as usize;
                    &&& final(manager).caches().len() == old(manager).caches().len()
                    &&& forall|k: int| 0 <= k < old(manager).caches().len() && old(manager).caches()[k].id() != b
                        ==> #[trigger] final(manager).caches()[k] == old(manager).caches()[k]
                    &&& forall|c: int| 0 <= c < BLOCK_BITS && c != pos % BLOCK_BITS
                        ==> #[trigger] bit_of(final(manager).block_data(b), c) == bit_of(old(manager).block_data(b), c)
                }
            },
            old(self).inode_map().all_cached(old(manager)) && id is None ==> forall|q: int|
                0 <= q < old(self).inode_map().num_blocks() * BLOCK_BITS ==> #[trigger] old(self).inode_map().cached_bit(old(manager), q),
            id is None ==> forall|k: int| 0 <= k < final(manager).caches().len()
                ==> old(manager).caches().contains(#[trigger] final(manager).caches()[k])
                    || (old(self).inode_map().covers(final(manager).caches()[k].id()) && block_full(final(manager).caches()[k].data())),
            old(self).inode_map().all_cached(old(manager)) && id is None ==> final(manager).caches() == old(manager).caches(),
            forall|b: usize| old(manager).written(b) ==> #[trigger] final(manager).written(b),
            old(self).inode_map().num_blocks() > 0 && old(manager).holds(old(self).inode_map().start())
                && !block_full(old(manager).block_data(old(self).inode_map().start())) ==> {
                let data = old(manager).block_data(old(self).inode_map().start());
                &&& id matches Some(i)
                &&& i < BLOCK_BITS
                &&& !bit_of(data, i as int)
                &&& forall|c: int| 0 <= c < i ==> #[trigger] bit_of(data, c)
            },
    {
        match self.inode_bitmap.allocate(manager, &self.block_device) {
            Some(pos) => Some(pos as u32),
            None => None,
        }
    }

    /// Allocates a data block and returns its disk block number. A bitmap
    /// that is cached whole must have a free block; one read from the device
    /// may turn out full, and then `None` is returned.
    pub fn alloc_data(&mut self, manager: &mut BlockCacheManager<D>) -> (id: Option<u32>)
        requires
            old(manager).wf(),
            old(self).data_map().start() + old(self).data_map().num_blocks() <= usize::MAX,
            old(self).data_map().num_blocks() * BLOCK_BITS <= usize::MAX,
            old(self).data_area_start() + old(self).data_map().num_blocks() * BLOCK_BITS <= u32::MAX,
            old(self).data_map().all_cached(old(manager)) ==> exists|q: int|
                0 <= q < old(self).data_map().num_blocks() * BLOCK_BITS && !#[trigger] old(self).data_map().cached_bit(old(manager), q),
        ensures
            final(manager).wf(),
            *final(self) == *old(self),
            forall|k: int| 0 <= k < final(manager).caches().len() && !old(self).data_map().covers(#[trigger] final(manager).caches()[k].id())
                ==> old(manager).caches().contains(final(manager).caches()[k]),
            id matches Some(i) ==> exists|pos: usize| {
                &&& i == pos + old(self).data_area_start()
                &&& pos < old(self).data_map().num_blocks() * BLOCK_BITS
                &&& final(manager).holds((old(self).data_map().start() + pos / BLOCK_BITS) as usize)
                &&& bit_of(#[trigger] final(manager).block_data((old(self).data_map().start() + pos / BLOCK_BITS) as usize),
                    (pos % BLOCK_BITS) as int)
                &&& forall|c: int| 0 <= c < pos % BLOCK_BITS
                    ==> #[trigger] bit_of(final(manager).block_data((old(self).data_map().start() + pos / BLOCK_BITS) as usize), c)
                &&& old(self).data_map().num_blocks() > 0 && old(manager).holds(old(self).data_map().start())
                    && !block_full(old(manager).block_data(old(self).data_map().start())) ==> pos < BLOCK_BITS
                &&& old(self).data_map().all_cached(old(manager)) ==> {
                    &&& !old(self).data_map().cached_bit(old(manager), pos as int)
                    &&& forall|q: int| 0 <= q < pos ==> #[trigger] old(self).data_map().cached_bit(old(manager), q)
                }
                &&& forall|k: int| 0 <= k < final(manager).caches().len()
                    && final(manager).caches()[k].id() != old(self).data_map().start() + pos / BLOCK_BITS
                    ==> old(manager).caches().contains(#[trigger] final(manager).caches()[k])
                        || (old(self).data_map().covers(final(manager).caches()[k].id()) && block_full(final(manager).caches()[k].data()))
                &&& old(self).data_map().all_cached(old(manager)) ==> {
                    let b = (old(self).data_map().start() + pos / BLOCK_BITS) as usize;
                    &&& final(manager).caches().len() == old(manager).caches().len()
                    &&& forall|k: int| 0 <= k < old(manager).caches().len() && old(manager).caches()[k].id() != b
                        ==> #[trigger] final(manager).caches()[k] == old(manager).caches()[k]
                    &&& forall|c: int| 0 <= c < BLOCK_BITS && c != pos % BLOCK_BITS
                        ==> #[trigger] bit_of(final(manager).block_data(b), c) == bit_of(old(manager).block_data(b), c)
                }
            },
            old(self).data_map().all_cached(old(manager)) && id is None ==> forall|q: int|
                0 <= q < old(self).data_map().num_blocks() * BLOCK_BITS ==> #[trigger] old(self).data_map().cached_bit(old(manager), q),
            id is None ==> forall|k: int| 0 <= k < final(manager).caches().len()
                ==> old(manager).caches().contains(#[trigger] final(manager).caches()[k])
                    || (old(self).data_map().covers(final(manager).caches()[k].id()) && block_full(final(manager).caches()[k].data())),
            old(self).data_map().all_cached(old(manager)) && id is None ==> final(manager).caches() == old(manager).caches(),
            forall|b: usize| old(manager).written(b) ==> #[trigger] final(manager).written(b),
            old(self).data_map().num_blocks() > 0 && old(manager).holds(old(self).data_map().start())
                && !block_full(old(manager).block_data(old(self).data_map().start())) ==> {
                let data = old(manager).block_data(old(self).data_map().start());
                &&& id matches Some(i)
                &&& old(self).data_area_start() <= i < old(self).data_area_start() + BLOCK_BITS
                &&& !bit_of(data, i - old(self).data_area_start())
                &&& forall|c: int| 0 <= c < i - old(self).data_area_start() ==> #[trigger] bit_of(data, c)
            },
    {
        match self.data_bitmap.allocate(manager, &self.block_device) {
            Some(pos) => Some(pos as u32 + self.data_area_start_block),
            None => None,
        }
    }

    /// Clears data block `block_id` and frees it in the data bitmap; the
    /// block must be allocated where that is known from the cache. Returns
    /// whether the block was allocated.
    pub fn dealloc_data(&mut self, manager: &mut BlockCacheManager<D>, block_id: u32) -> (freed: bool)
        requires
            old(manager).wf(),
            block_id >= old(self).data_area_start(),
            old(self).data_map().start() + (block_id - old(self).data_area_start()) as usize / BLOCK_BITS <= usize::MAX,
            ({
                let b = (old(self).data_map().start() + (block_id - old(self).data_area_start()) as usize / BLOCK_BITS) as usize;
                &&& b != block_id
                &&& old(manager).holds(b)
                    ==> bit_of(old(manager).block_data(b), ((block_id - old(self).data_area_start()) as usize % BLOCK_BITS) as int)
            }),
        ensures
            final(manager).wf(),
            *final(self) == *old(self),
            final(manager).holds((old(self).data_map().start() + (block_id - old(self).data_area_start()) as usize / BLOCK_BITS) as usize),
            !bit_of(final(manager).block_data((old(self).data_map().start() + (block_id - old(self).data_area_start()) as usize / BLOCK_BITS) as usize),
                ((block_id - old(self).data_area_start()) as usize % BLOCK_BITS) as int),
            block_id != old(self).data_map().start() + (block_id - old(self).data_area_start()) as usize / BLOCK_BITS
                && final(manager).holds(block_id as usize)
                ==> final(manager).block_data(block_id as usize) == Seq::new(BLOCK_SZ as nat, |i: int| 0u8),
            ({
                let b = (old(self).data_map().start() + (block_id - old(self).data_area_start()) as usize / BLOCK_BITS) as usize;
                old(manager).holds(b) && old(manager).holds(block_id as usize) ==> {
                    &&& freed
                    &&& forall|c: int| 0 <= c < BLOCK_BITS && c != ((block_id - old(self).data_area_start()) as usize % BLOCK_BITS) as int
                        ==> #[trigger] bit_of(final(manager).block_data(b), c) == bit_of(old(manager).block_data(b), c)
                }
            }),
    {
        let idx = manager.get_block_cache(block_id as usize, &self.block_device);
        let ghost c1 = manager.caches();
        let zeros: Vec<u8> = vec![0u8; BLOCK_SZ];
        let ghost zero_block = Seq::new(BLOCK_SZ as nat, |i: int| 0u8);
        assert(zeros@ =~= zero_block);
        proof {
            assert(manager.caches()[idx as int].wf());
        }
        manager.modify(idx, 0, zeros.as_slice());
        let ghost m1 = manager.caches();
        proof {
            assert(m1[idx as int].data() =~= zero_block);
        }
        proof {
            let b = (self.data_map().start() + (block_id - self.data_area_start()) as usize / BLOCK_BITS) as usize;
            if manager.holds(b) {
                let kb = choose|kb: int| 0 <= kb < m1.len() && #[trigger] m1[kb].id() == b;
                manager.lemma_block_data(kb);
                assert(kb != idx);
                assert(m1[kb] == c1[kb]);
                assert(old(manager).caches().contains(c1[kb]));
                let ko = choose|ko: int| 0 <= ko < old(manager).caches().len() && old(manager).caches()[ko] == c1[kb];
                old(manager).lemma_block_data(ko);
            }
        }
        let ghost m_mid = *manager;
        let freed = self.data_bitmap.dealloc(manager, &self.block_device, (block_id - self.data_area_start_block) as usize);
        proof {
            let b = (self.data_map().start() + (block_id - self.data_area_start()) as usize / BLOCK_BITS) as usize;
            if old(manager).holds(b) && old(manager).holds(block_id as usize) {
                let kb = choose|kb: int| 0 <= kb < old(manager).caches().len() && #[trigger] old(manager).caches()[kb].id() == b;
                let ki = choose|ki: int| 0 <= ki < old(manager).caches().len() && #[trigger] old(manager).caches()[ki].id() == block_id as usize;
                assert(c1 == old(manager).caches() && idx == ki);
                assert(kb != idx);
                assert(m1[kb] == c1[kb]);
                old(manager).lemma_block_data(kb);
                m_mid.lemma_block_data(kb);
                assert(m_mid.holds(b));
            }
        }
        proof {
            let b = (self.data_map().start() + (block_id - self.data_area_start()) as usize / BLOCK_BITS) as usize;
            if block_id != b && manager.holds(block_id as usize) {
                let k = choose|k: int| 0 <= k < manager.caches().len() && #[trigger] manager.caches()[k].id() == block_id as usize;
                manager.lemma_block_data(k);
                assert(m1.contains(manager.caches()[k]));
                let j = choose|j: int| 0 <= j < m1.len() && m1[j] == manager.caches()[k];
                if j != idx {
                    if j < idx {
                        assert(m1[j].id() != m1[idx as int].id());
                    } else {
                        assert(m1[idx as int].id() != m1[j].id());
                    }
                }
            }
        }
        freed
    }
}

} // verus!
