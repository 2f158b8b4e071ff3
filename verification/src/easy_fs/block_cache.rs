//! In-memory copies of disk blocks, written back when modified.
use vstd::prelude::*;
use std::sync::Arc;
use crate::easy_fs::{BlockDevice, BLOCK_SZ};

verus! {

/// Most blocks the manager keeps cached at once.
pub const BLOCK_CACHE_SIZE: usize = 16;

/// A call made on the block device.
pub ghost enum DeviceOp {
    /// `read_block` of a block.
    Read { block_id: usize },
    /// `write_block` of a block with the given bytes.
    Write { block_id: usize, data: Seq<u8> },
}

/// A cached copy of one disk block.
pub struct BlockCache<D: BlockDevice> {
    cache: Vec<u8>,
    block_id: usize,
    block_device: Arc<D>,
    modified: bool,
    ops: Ghost<Seq<DeviceOp>>,
}

/// The device calls after those in `ops` once a cache of block `id` holding
/// `data` is written back: a write of those bytes when the cache is
/// modified, nothing otherwise.
pub open spec fn ops_after_sync(ops: Seq<DeviceOp>, modified: bool, id: usize, data: Seq<u8>) -> Seq<DeviceOp> {
    if modified {
        ops.push(DeviceOp::Write { block_id: id, data })
    } else {
        ops
    }
}

/// Whether `op` is a `write_block` of block `b`.
pub open spec fn is_write_of(op: DeviceOp, b: usize) -> bool {
    match op {
        DeviceOp::Write { block_id, .. } => block_id == b,
        DeviceOp::Read { .. } => false,
    }
}

/// Whether `ops` holds a `write_block` of block `b`.
pub open spec fn has_write(ops: Seq<DeviceOp>, b: usize) -> bool {
    exists|i: int| 0 <= i < ops.len() && is_write_of(#[trigger] ops[i], b)
}

/// A write found in `ops` stays found once more calls follow it.
pub proof fn lemma_has_write_append(ops: Seq<DeviceOp>, more: Seq<DeviceOp>, b: usize)
    ensures
        has_write(ops, b) ==> has_write(ops + more, b),
        has_write(more, b) ==> has_write(ops + more, b),
{
    if has_write(ops, b) {
        let i = choose|i: int| 0 <= i < ops.len() && is_write_of(#[trigger] ops[i], b);
        assert((ops + more)[i] == ops[i]);
    }
    if has_write(more, b) {
        let i = choose|i: int| 0 <= i < more.len() && is_write_of(#[trigger] more[i], b);
        assert((ops + more)[ops.len() + i] == more[i]);
    }
}

/// Syncing a cache keeps the writes it has made, and a modified cache adds
/// the write of its own block.
pub proof fn lemma_has_write_sync(ops: Seq<DeviceOp>, modified: bool, id: usize, data: Seq<u8>, b: usize)
    ensures
        has_write(ops, b) ==> has_write(ops_after_sync(ops, modified, id, data), b),
        modified && b == id ==> has_write(ops_after_sync(ops, modified, id, data), b),
{
    if modified {
        lemma_has_write_append(ops, seq![DeviceOp::Write { block_id: id, data }], b);
        assert(ops.push(DeviceOp::Write { block_id: id, data }) == ops + seq![DeviceOp::Write { block_id: id, data }]);
        if b == id {
            let s = ops.push(DeviceOp::Write { block_id: id, data });
            assert(is_write_of(s[ops.len() as int], b));
        }
    }
}

impl<D: BlockDevice> BlockCache<D> {
    /// The cached bytes.
    pub closed spec fn data(&self) -> Seq<u8> {
        self.cache@
    }

    /// The block this cache holds.
    pub closed spec fn id(&self) -> usize {
        self.block_id
    }

    /// Whether the cached bytes differ from the disk's.
    pub closed spec fn is_modified(&self) -> bool {
        self.modified
    }

    /// The calls this cache has made on the device, in order.
    pub closed spec fn device_ops(&self) -> Seq<DeviceOp> {
        self.ops@
    }

    /// The cache holds one whole block.
    pub open spec fn wf(&self) -> bool {
        self.data().len() == BLOCK_SZ
    }

    /// Reads block `block_id` from the device into a buffer of one block.
    /// What the device returns is not known to the proofs.
    pub fn new(block_id: usize, block_device: Arc<D>) -> (c: Self)
        ensures
            c.wf(),
            c.id() == block_id,
            !c.is_modified(),
            c.device_ops() == seq![DeviceOp::Read { block_id }],
    {
        let mut cache: Vec<u8> = vec![0u8; BLOCK_SZ];
        block_device.read_block(block_id, cache.as_mut_slice());
        let ops: Ghost<Seq<DeviceOp>> = Ghost(Seq::empty().push(DeviceOp::Read { block_id }));
        BlockCache { cache, block_id, block_device, modified: false, ops }
    }

    /// A copy of the `len` bytes at `offset`.
    pub fn read(&self, offset: usize, len: usize) -> (bytes: Vec<u8>)
        requires
            self.wf(),
            offset + len <= BLOCK_SZ,
        ensures
            bytes@ == self.data().subrange(offset as int, offset + len),
    {
        let mut bytes: Vec<u8> = Vec::new();
        let mut i: usize = 0;
        while i < len
            invariant
                i <= len,
                offset + len <= BLOCK_SZ,
                self.wf(),
                bytes@ == self.data().subrange(offset as int, offset + i),
            decreases len - i,
        {
            bytes.push(self.cache[offset + i]);
            i = i + 1;
            proof {
                assert(bytes@ =~= self.data().subrange(offset as int, offset + i));
            }
        }
        bytes
    }

    /// Overwrites the bytes at `offset` with `data` and marks the cache modified.
    pub fn modify(&mut self, offset: usize, data: &[u8])
        requires
            old(self).wf(),
            offset + data@.len() <= BLOCK_SZ,
        ensures
            final(self).wf(),
            final(self).id() == old(self).id(),
            final(self).is_modified(),
            final(self).data() == old(self).data().subrange(0, offset as int) + data@
                + old(self).data().subrange(offset + data@.len(), BLOCK_SZ as int),
            final(self).device_ops() == old(self).device_ops(),
    {
        self.modified = true;
        let ghost old_data = self.cache@;
        let mut i: usize = 0;
        while i < data.len()
            invariant
                i <= data@.len(),
                offset + data@.len() <= BLOCK_SZ,
                self.cache@.len() == BLOCK_SZ,
                old_data.len() == BLOCK_SZ,
                self.block_id == old(self).block_id,
                self.ops == old(self).ops,
                self.modified,
                forall|m: int| 0 <= m < offset || offset + i <= m < BLOCK_SZ ==> #[trigger] self.cache@[m] == old_data[m],
                forall|m: int| 0 <= m < i ==> #[trigger] self.cache@[offset + m] == data@[m],
            decreases data@.len() - i,
        {
            self.cache.set(offset + i, data[i]);
            i = i + 1;
        }
        proof {
            let expected = old_data.subrange(0, offset as int) + data@
                + old_data.subrange(offset + data@.len(), BLOCK_SZ as int);
            assert forall|m: int| 0 <= m < BLOCK_SZ implies #[trigger] self.cache@[m] == expected[m] by {
                if offset <= m < offset + data@.len() {
                    assert(self.cache@[offset + (m - offset)] == data@[m - offset]);
                }
            }
            assert(self.cache@ =~= expected);
        }
    }

    /// Writes the block back to the device if it was modified: one
    /// `write_block` of the cached bytes, and no call when it was not.
    pub fn sync(&mut self)
        requires
            old(self).wf(),
        ensures
            final(self).wf(),
            final(self).id() == old(self).id(),
            final(self).data() == old(self).data(),
            !final(self).is_modified(),
            final(self).device_ops() == ops_after_sync(old(self).device_ops(), old(self).is_modified(), old(self).id(),
                old(self).data()),
    {
        if self.modified {
            self.modified = false;
            self.block_device.write_block(self.block_id, self.cache.as_slice());
            proof {
                self.ops@ = self.ops@.push(DeviceOp::Write { block_id: self.block_id, data: self.cache@ });
            }
        }
    }
}

/// The caches of recently used blocks, oldest first.
pub struct BlockCacheManager<D: BlockDevice> {
    queue: Vec<BlockCache<D>>,
    retired: Ghost<Seq<DeviceOp>>,
}

impl<D: BlockDevice> BlockCacheManager<D> {
    /// The device calls made by caches that have been dropped, in order.
    pub closed spec fn retired_ops(&self) -> Seq<DeviceOp> {
        self.retired@
    }

    /// The cached blocks, oldest first.
    pub closed spec fn caches(&self) -> Seq<BlockCache<D>> {
        self.queue@
    }

    /// At most `BLOCK_CACHE_SIZE` blocks are cached, each once, each whole.
    pub open spec fn wf(&self) -> bool {
        &&& self.caches().len() <= BLOCK_CACHE_SIZE
        &&& forall|i: int| 0 <= i < self.caches().len() ==> #[trigger] self.caches()[i].wf()
        &&& forall|i: int, j: int| 0 <= i < j < self.caches().len()
            ==> #[trigger] self.caches()[i].id() != #[trigger] self.caches()[j].id()
    }

    /// Whether block `b` has been, or is bound to be, written back: a dropped
    /// cache wrote it, or its cache is modified or has written it.
    pub open spec fn written(&self, b: usize) -> bool {
        ||| has_write(self.retired_ops(), b)
        ||| exists|k: int| 0 <= k < self.caches().len() && #[trigger] self.caches()[k].id() == b
            && (self.caches()[k].is_modified() || has_write(self.caches()[k].device_ops(), b))
    }

    /// Whether block `block_id` is cached.
    pub open spec fn holds(&self, block_id: usize) -> bool {
        exists|k: int| 0 <= k < self.caches().len() && #[trigger] self.caches()[k].id() == block_id
    }

    /// The cached bytes of block `block_id`.
    pub open spec fn block_data(&self, block_id: usize) -> Seq<u8> {
        self.caches()[choose|k: int| 0 <= k < self.caches().len() && #[trigger] self.caches()[k].id() == block_id].data()
    }

    /// The cache at position `idx` holds its block, and the cached bytes of
    /// that block are its bytes.
    pub proof fn lemma_block_data(&self, idx: int)
        requires
            self.wf(),
            0 <= idx < self.caches().len(),
        ensures
            self.holds(self.caches()[idx].id()),
            self.block_data(self.caches()[idx].id()) == self.caches()[idx].data(),
    {
        let id = self.caches()[idx].id();
        assert(self.caches()[idx].id() == id);
        let k = choose|k: int| 0 <= k < self.caches().len() && #[trigger] self.caches()[k].id() == id;
        if k != idx {
            if k < idx {
                assert(self.caches()[k].id() != self.caches()[idx].id());
            } else {
                assert(self.caches()[idx].id() != self.caches()[k].id());
            }
        }
    }

    /// A manager with nothing cached.
    pub fn new() -> (m: Self)
        ensures
            m.wf(),
            m.caches().len() == 0,
            m.retired_ops() == Seq::<DeviceOp>::empty(),
    {
        BlockCacheManager { queue: Vec::new(), retired: Ghost(Seq::empty()) }
    }

    /// The position of the cache of block `block_id`, loading the block from
    /// the device if it is not cached. When the manager is full, the oldest
    /// cache is written back and dropped first. Blocks already cached keep
    /// their cached bytes.
    pub fn get_block_cache(&mut self, block_id: usize, block_device: &Arc<D>) -> (idx: usize)
        requires
            old(self).wf(),
        ensures
            final(self).wf(),
            idx < final(self).caches().len(),
            final(self).caches()[idx as int].id() == block_id,
            forall|i: int| 0 <= i < old(self).caches().len() && old(self).caches()[i].id() == block_id
                ==> final(self).caches() == old(self).caches() && idx == i,
            forall|i: int, j: int| 0 <= i < old(self).caches().len() && 0 <= j < final(self).caches().len()
                && #[trigger] old(self).caches()[i].id() == #[trigger] final(self).caches()[j].id()
                ==> final(self).caches()[j].data() == old(self).caches()[i].data(),
            forall|j: int| 0 <= j < final(self).caches().len() && j != idx
                ==> old(self).caches().contains(#[trigger] final(self).caches()[j]),
            forall|b: usize| old(self).written(b) ==> #[trigger] final(self).written(b),
            (exists|i: int| 0 <= i < old(self).caches().len() && old(self).caches()[i].id() == block_id)
                ==> final(self).retired_ops() == old(self).retired_ops(),
            !(exists|i: int| 0 <= i < old(self).caches().len() && old(self).caches()[i].id() == block_id) ==> {
                &&& final(self).caches()[idx as int].device_ops() == seq![DeviceOp::Read { block_id }]
                &&& final(self).retired_ops() == if old(self).caches().len() == BLOCK_CACHE_SIZE {
                    old(self).retired_ops() + ops_after_sync(old(self).caches()[0].device_ops(), old(self).caches()[0].is_modified(),
                        old(self).caches()[0].id(), old(self).caches()[0].data())
                } else {
                    old(self).retired_ops()
                }
            },
    {
        let mut i: usize = 0;
        while i < self.queue.len()
            invariant
                i <= self.queue@.len(),
                self.queue@ == old(self).queue@,
                old(self).wf(),
                forall|k: int| 0 <= k < i ==> #[trigger] self.queue@[k].id() != block_id,
            decreases self.queue@.len() - i,
        {
            if self.queue[i].block_id == block_id {
                proof {
                    assert forall|k: int| 0 <= k < self.queue@.len() && self.queue@[k].id() == block_id
                        implies k == i by {
                        if k != i {
                            if k < i {
                                assert(self.queue@[k].id() != self.queue@[i as int].id());
                            } else {
                                assert(self.queue@[i as int].id() != self.queue@[k].id());
                            }
                        }
                    }
                    assert forall|a: int, b: int| 0 <= a < old(self).caches().len() && 0 <= b < self.caches().len()
                        && #[trigger] old(self).caches()[a].id() == #[trigger] self.caches()[b].id()
                        implies self.caches()[b].data() == old(self).caches()[a].data() by {
                        if a != b {
                            if a < b {
                                assert(self.queue@[a].id() != self.queue@[b].id());
                            } else {
                                assert(self.queue@[b].id() != self.queue@[a].id());
                            }
                        }
                    }
                }
                return i;
            }
            i = i + 1;
        }
        let ghost old_q = self.queue@;
        if self.queue.len() == BLOCK_CACHE_SIZE {
            let mut evicted = self.queue.remove(0);
            proof {
                assert(old_q[0].wf());
            }
            evicted.sync();
            proof {
                self.retired@ = self.retired@ + evicted.device_ops();
            }
            proof {
                assert forall|k: int| 0 <= k < self.queue@.len() implies #[trigger] self.queue@[k] == old_q[k + 1] by {}
            }
        }
        let ghost mid_q = self.queue@;
        let block_cache = BlockCache::new(block_id, Arc::clone(block_device));
        self.queue.push(block_cache);
        proof {
            assert forall|j: int| 0 <= j < self.caches().len() && j != self.caches().len() - 1
                implies old(self).caches().contains(#[trigger] self.caches()[j]) by {
                if old_q.len() == BLOCK_CACHE_SIZE {
                    assert(self.caches()[j] == old(self).caches()[j + 1]);
                } else {
                    assert(self.caches()[j] == old(self).caches()[j]);
                }
            }
            assert forall|k: int| 0 <= k < mid_q.len() implies #[trigger] self.queue@[k] == mid_q[k] by {}
            assert forall|a: int, b: int| 0 <= a < self.caches().len() && 0 <= b < self.caches().len() && a < b
                implies #[trigger] self.caches()[a].id() != #[trigger] self.caches()[b].id() by {
                if b == self.caches().len() - 1 {
                } else if old_q.len() == BLOCK_CACHE_SIZE {
                    assert(self.queue@[a] == old_q[a + 1]);
                    assert(self.queue@[b] == old_q[b + 1]);
                } else {
                    assert(self.queue@[a] == old_q[a]);
                }
            }
            assert forall|a: int, b: int| 0 <= a < old(self).caches().len() && 0 <= b < self.caches().len()
                && #[trigger] old(self).caches()[a].id() == #[trigger] self.caches()[b].id()
                implies self.caches()[b].data() == old(self).caches()[a].data() by {
                if b == self.caches().len() - 1 {
                    assert(old_q[a].id() != block_id);
                } else if old_q.len() == BLOCK_CACHE_SIZE {
                    assert(self.queue@[b] == old_q[b + 1]);
                    if a != b + 1 {
                        if a < b + 1 {
                            assert(old_q[a].id() != old_q[b + 1].id());
                        } else {
                            assert(old_q[b + 1].id() != old_q[a].id());
                        }
                    }
                } else {
                    assert(self.queue@[b] == old_q[b]);
                    if a != b {
                        if a < b {
                            assert(old_q[a].id() != old_q[b].id());
                        } else {
                            assert(old_q[b].id() != old_q[a].id());
                        }
                    }
                }
            }
            assert forall|b: usize| old(self).written(b) implies #[trigger] self.written(b) by {
                let ghost evicted_ops = ops_after_sync(old_q[0].device_ops(), old_q[0].is_modified(), old_q[0].id(), old_q[0].data());
                if has_write(old(self).retired_ops(), b) {
                    if old_q.len() == BLOCK_CACHE_SIZE {
                        lemma_has_write_append(old(self).retired_ops(), evicted_ops, b);
                    }
                } else {
                    let k = choose|k: int| 0 <= k < old_q.len() && #[trigger] old_q[k].id() == b
                        && (old_q[k].is_modified() || has_write(old_q[k].device_ops(), b));
                    if old_q.len() == BLOCK_CACHE_SIZE {
                        if k == 0 {
                            lemma_has_write_sync(old_q[0].device_ops(), old_q[0].is_modified(), old_q[0].id(), old_q[0].data(), b);
                            lemma_has_write_append(old(self).retired_ops(), evicted_ops, b);
                        } else {
                            assert(mid_q[k - 1] == old_q[k]);
                            assert(self.caches()[k - 1] == old_q[k]);
                        }
                    } else {
                        assert(self.caches()[k] == old_q[k]);
                    }
                }
            }
        }
        self.queue.len() - 1
    }

    /// A copy of `len` bytes at `offset` of the cache at position `idx`.
    pub fn read(&self, idx: usize, offset: usize, len: usize) -> (bytes: Vec<u8>)
        requires
            self.wf(),
            idx < self.caches().len(),
            offset + len <= BLOCK_SZ,
        ensures
            bytes@ == self.caches()[idx as int].data().subrange(offset as int, offset + len),
    {
        self.queue[idx].read(offset, len)
    }

    /// Overwrites bytes at `offset` of the cache at position `idx`.
    pub fn modify(&mut self, idx: usize, offset: usize, data: &[u8])
        requires
            old(self).wf(),
            idx < old(self).caches().len(),
            offset + data@.len() <= BLOCK_SZ,
        ensures
            final(self).wf(),
            final(self).caches().len() == old(self).caches().len(),
            forall|j: int| 0 <= j < old(self).caches().len() && j != idx ==> final(self).caches()[j] == old(self).caches()[j],
            final(self).caches()[idx as int].id() == old(self).caches()[idx as int].id(),
            final(self).caches()[idx as int].is_modified(),
            final(self).caches()[idx as int].data() == old(self).caches()[idx as int].data().subrange(0, offset as int)
                + data@ + old(self).caches()[idx as int].data().subrange(offset + data@.len(), BLOCK_SZ as int),
            final(self).caches()[idx as int].device_ops() == old(self).caches()[idx as int].device_ops(),
            final(self).retired_ops() == old(self).retired_ops(),
            forall|b: usize| old(self).written(b) ==> #[trigger] final(self).written(b),
            final(self).written(old(self).caches()[idx as int].id()),
    {
        self.queue[idx].modify(offset, data);
        proof {
            assert(self.caches()[idx as int].id() == old(self).caches()[idx as int].id());
            assert forall|b: usize| old(self).written(b) implies #[trigger] self.written(b) by {
                if !has_write(old(self).retired_ops(), b) {
                    let k = choose|k: int| 0 <= k < old(self).caches().len() && #[trigger] old(self).caches()[k].id() == b
                        && (old(self).caches()[k].is_modified() || has_write(old(self).caches()[k].device_ops(), b));
                    if k != idx {
                        assert(self.caches()[k] == old(self).caches()[k]);
                    } else {
                        assert(self.caches()[k].id() == b);
                    }
                }
            }
            assert forall|a: int, b: int| 0 <= a < b < self.caches().len()
                implies #[trigger] self.caches()[a].id() != #[trigger] self.caches()[b].id() by {
                assert(self.caches()[a].id() == old(self).caches()[a].id());
                assert(self.caches()[b].id() == old(self).caches()[b].id());
            }
        }
    }

    /// Writes every modified cache back to the device: one `write_block` of
    /// its bytes per modified cache, in order, and none for the others.
    pub fn sync_all(&mut self)
        requires
            old(self).wf(),
        ensures
            final(self).wf(),
            final(self).caches().len() == old(self).caches().len(),
            forall|j: int| 0 <= j < old(self).caches().len() ==> {
                &&& #[trigger] final(self).caches()[j].id() == old(self).caches()[j].id()
                &&& final(self).caches()[j].data() == old(self).caches()[j].data()
                &&& !final(self).caches()[j].is_modified()
                &&& final(self).caches()[j].device_ops() == ops_after_sync(old(self).caches()[j].device_ops(),
                    old(self).caches()[j].is_modified(), old(self).caches()[j].id(), old(self).caches()[j].data())
            },
            final(self).retired_ops() == old(self).retired_ops(),
            forall|b: usize| old(self).written(b) ==> #[trigger] final(self).written(b),
    {
        let mut i: usize = 0;
        while i < self.queue.len()
            invariant
                i <= self.queue@.len(),
                self.queue@.len() == old(self).queue@.len(),
                forall|j: int| 0 <= j < self.queue@.len() ==> {
                    &&& #[trigger] self.queue@[j].id() == old(self).caches()[j].id()
                    &&& self.queue@[j].data() == old(self).caches()[j].data()
                },
                forall|j: int| 0 <= j < i ==> !(#[trigger] self.queue@[j]).is_modified(),
                forall|j: int| 0 <= j < i ==> (#[trigger] self.queue@[j]).device_ops() == ops_after_sync(
                    old(self).caches()[j].device_ops(), old(self).caches()[j].is_modified(), old(self).caches()[j].id(),
                    old(self).caches()[j].data()),
                forall|j: int| i <= j < self.queue@.len() ==> #[trigger] self.queue@[j] == old(self).caches()[j],
                self.retired == old(self).retired,
                forall|j: int| 0 <= j < self.queue@.len() ==> (#[trigger] self.queue@[j]).wf(),
                old(self).wf(),
            decreases self.queue@.len() - i,
        {
            self.queue[i].sync();
            i = i + 1;
        }
        proof {
            assert forall|a: int, b: int| 0 <= a < b < self.caches().len()
                implies #[trigger] self.caches()[a].id() != #[trigger] self.caches()[b].id() by {
                assert(self.caches()[a].id() == old(self).caches()[a].id());
                assert(self.caches()[b].id() == old(self).caches()[b].id());
            }
            assert forall|j: int| 0 <= j < old(self).caches().len() implies {
                &&& #[trigger] self.caches()[j].id() == old(self).caches()[j].id()
                &&& self.caches()[j].data() == old(self).caches()[j].data()
                &&& !self.caches()[j].is_modified()
                &&& self.caches()[j].device_ops() == ops_after_sync(old(self).caches()[j].device_ops(),
                    old(self).caches()[j].is_modified(), old(self).caches()[j].id(), old(self).caches()[j].data())
            } by {
                assert(self.queue@[j].device_ops() == ops_after_sync(old(self).caches()[j].device_ops(),
                    old(self).caches()[j].is_modified(), old(self).caches()[j].id(), old(self).caches()[j].data()));
                assert(!self.queue@[j].is_modified());
            }
            assert forall|b: usize| old(self).written(b) implies #[trigger] self.written(b) by {
                if !has_write(old(self).retired_ops(), b) {
                    let k = choose|k: int| 0 <= k < old(self).caches().len() && #[trigger] old(self).caches()[k].id() == b
                        && (old(self).caches()[k].is_modified() || has_write(old(self).caches()[k].device_ops(), b));
                    let c = old(self).caches()[k];
                    lemma_has_write_sync(c.device_ops(), c.is_modified(), c.id(), c.data(), b);
                    assert(self.caches()[k].id() == b);
                }
            }
        }
    }
}

/// Writes every modified cached block back to the device.
pub fn block_cache_sync_all<D: BlockDevice>(manager: &mut BlockCacheManager<D>)
    requires
        old(manager).wf(),
    ensures
        final(manager).wf(),
        final(manager).caches().len() == old(manager).caches().len(),
        forall|j: int| 0 <= j < old(manager).caches().len() ==> {
            &&& #[trigger] final(manager).caches()[j].id() == old(manager).caches()[j].id()
            &&& final(manager).caches()[j].data() == old(manager).caches()[j].data()
            &&& !final(manager).caches()[j].is_modified()
            &&& final(manager).caches()[j].device_ops() == ops_after_sync(old(manager).caches()[j].device_ops(),
                old(manager).caches()[j].is_modified(), old(manager).caches()[j].id(), old(manager).caches()[j].data())
        },
        final(manager).retired_ops() == old(manager).retired_ops(),
        forall|b: usize| old(manager).written(b) ==> #[trigger] final(manager).written(b),
{
    manager.sync_all();
}

/// Law: bytes written into a cache reach the device at the next write-back.
/// A modified cache of block `id` holding `data` makes exactly one more
/// device call when synced, a `write_block` of `data` to block `id`, and a
/// second sync right after makes none.
pub proof fn lemma_modify_then_sync(ops: Seq<DeviceOp>, id: usize, data: Seq<u8>)
    ensures
        ops_after_sync(ops, true, id, data).len() == ops.len() + 1,
        ops_after_sync(ops, true, id, data).last() == (DeviceOp::Write { block_id: id, data }),
        ops_after_sync(ops_after_sync(ops, true, id, data), false, id, data) == ops_after_sync(ops, true, id, data),
{
}

} // verus!
