//! Allocation bitmaps stored in consecutive disk blocks.
//!
//! Each bitmap block holds 64 little-endian 64-bit words, 4096 bits in all;
//! bit `b` of a block is bit `b % 64` of word `b / 64`. A set bit marks an
//! allocated item.
use vstd::prelude::*;
use std::sync::Arc;
use crate::easy_fs::{BlockDevice, BLOCK_SZ};
use crate::easy_fs::block_cache::BlockCacheManager;
use crate::mm::phys_mem::word_of;

verus! {

/// Number of bits in a bitmap block.
pub const BLOCK_BITS: usize = 4096;

/// Bit `b` of a bitmap block.
pub open spec fn bit_of(data: Seq<u8>, b: int) -> bool {
    (word_of(data, b / 64) >> ((b % 64) as u64)) & 1u64 == 1u64
}

/// A bitmap spanning `blocks` blocks from block `start_block_id`.
pub struct Bitmap {
    start_block_id: usize,
    blocks: usize,
}

/// Block, word and bit of bit number `bit` of a bitmap.
pub fn decomposition(bit: usize) -> (pos: (usize, usize, usize))
    ensures
        pos.0 == bit / BLOCK_BITS,
        pos.1 == (bit % BLOCK_BITS) / 64,
        pos.2 == bit % 64,
{
    let block_pos = bit / BLOCK_BITS;
    let bit = bit % BLOCK_BITS;
    proof {
        assert((bit % 4096) % 64 == bit % 64) by (nonlinear_arith);
    }
    (block_pos, bit / 64, bit % 64)
}

proof fn lemma_word_bits(x: u64, inner: u64)
    requires
        inner < 64,
    ensures
        ((x | (1u64 << inner)) >> inner) & 1u64 == 1u64,
        forall|j: u64| j < 64 && j != inner ==> #[trigger] ((x | (1u64 << inner)) >> j) & 1u64 == (x >> j) & 1u64,
        (x & (1u64 << inner)) > 0 <==> (x >> inner) & 1u64 == 1u64,
        (x & (1u64 << inner)) > 0 ==> x >= (1u64 << inner),
        (x & (1u64 << inner)) > 0 ==> ((x - (1u64 << inner)) as u64 >> inner) & 1u64 == 0u64,
        (x & (1u64 << inner)) > 0 ==> forall|j: u64| j < 64 && j != inner ==> #[trigger] (((x - (1u64 << inner)) as u64) >> j) & 1u64 == (x >> j) & 1u64,
{
    assert(((x | (1u64 << inner)) >> inner) & 1u64 == 1u64) by (bit_vector)
        requires inner < 64;
    assert forall|j: u64| j < 64 && j != inner implies #[trigger] ((x | (1u64 << inner)) >> j) & 1u64 == (x >> j) & 1u64 by {
        assert(((x | (1u64 << inner)) >> j) & 1u64 == (x >> j) & 1u64) by (bit_vector)
            requires inner < 64, j < 64, j != inner;
    }
    assert((x & (1u64 << inner)) > 0 <==> (x >> inner) & 1u64 == 1u64) by (bit_vector)
        requires inner < 64;
    assert((x & (1u64 << inner)) > 0 ==> x >= (1u64 << inner)) by (bit_vector)
        requires inner < 64;
    assert((x & (1u64 << inner)) > 0 ==> ((x - (1u64 << inner)) as u64 >> inner) & 1u64 == 0u64) by (bit_vector)
        requires inner < 64;
    assert forall|j: u64| (x & (1u64 << inner)) > 0 && j < 64 && j != inner implies #[trigger] (((x - (1u64 << inner)) as u64) >> j) & 1u64 == (x >> j) & 1u64 by {
        assert((((x - (1u64 << inner)) as u64) >> j) & 1u64 == (x >> j) & 1u64) by (bit_vector)
            requires inner < 64, j < 64, j != inner, (x & (1u64 << inner)) > 0;
    }
}

proof fn lemma_full_word(j: u64)
    requires
        j < 64,
    ensures
        (0xffff_ffff_ffff_ffffu64 >> j) & 1u64 == 1u64,
{
    assert((0xffff_ffff_ffff_ffffu64 >> j) & 1u64 == 1u64) by (bit_vector)
        requires j < 64;
}

/// Bytes of a block after word `w` is replaced by `x`.
pub open spec fn with_word(data: Seq<u8>, w: int, x: u64) -> Seq<u8> {
    data.subrange(0, 8 * w) + vstd::bytes::spec_u64_to_le_bytes(x) + data.subrange(8 * w + 8, BLOCK_SZ as int)
}

proof fn lemma_with_word(data: Seq<u8>, w: int, x: u64)
    requires
        data.len() == BLOCK_SZ,
        0 <= w < 64,
    ensures
        with_word(data, w, x).len() == BLOCK_SZ,
        word_of(with_word(data, w, x), w) == x,
        forall|j: int| 0 <= j < 64 && j != w ==> #[trigger] word_of(with_word(data, w, x), j) == word_of(data, j),
{
    vstd::bytes::lemma_auto_spec_u64_to_from_le_bytes();
    let d = with_word(data, w, x);
    assert(d.subrange(8 * w, 8 * w + 8) =~= vstd::bytes::spec_u64_to_le_bytes(x));
    assert forall|j: int| 0 <= j < 64 && j != w implies #[trigger] word_of(d, j) == word_of(data, j) by {
        assert(d.subrange(8 * j, 8 * j + 8) =~= data.subrange(8 * j, 8 * j + 8));
    }
}

/// Setting the lowest clear bit of a word, or clearing a set bit, changes
/// exactly that bit of the block.
proof fn lemma_bit_update(data: Seq<u8>, w: int, x: u64, inner: u64, set: bool, nx: u64)
    requires
        data.len() == BLOCK_SZ,
        0 <= w < 64,
        inner < 64,
        word_of(data, w) == x,
        set ==> (x >> inner) & 1u64 == 0u64 && nx == x | (1u64 << inner),
        !set ==> (x & (1u64 << inner)) > 0 && nx == (x - (1u64 << inner)) as u64,
    ensures
        with_word(data, w, nx).len() == BLOCK_SZ,
        bit_of(with_word(data, w, nx), 64 * w + inner) == set,
        bit_of(data, 64 * w + inner) == !set,
        forall|c: int| 0 <= c < BLOCK_BITS && c != 64 * w + inner ==> #[trigger] bit_of(with_word(data, w, nx), c) == bit_of(data, c),
{
    let d = with_word(data, w, nx);
    lemma_with_word(data, w, nx);
    lemma_word_bits(x, inner);
    assert((64 * w + inner) / 64 == w);
    assert((64 * w + inner) % 64 == inner);
    assert forall|c: int| 0 <= c < BLOCK_BITS && c != 64 * w + inner implies #[trigger] bit_of(d, c) == bit_of(data, c) by {
        let cw = c / 64;
        let cb = c % 64;
        assert(0 <= cw < 64);
        if cw != w {
            assert(word_of(d, cw) == word_of(data, cw));
        } else {
            assert(cb != inner);
            assert(((nx >> (cb as u64)) & 1u64) == ((x >> (cb as u64)) & 1u64));
        }
    }
}

/// Bit `c` of bitmap block `k` is bit `k * BLOCK_BITS + c` of the bitmap.
proof fn lemma_bit_position(k: int, c: int)
    requires
        0 <= k,
        0 <= c < BLOCK_BITS,
    ensures
        (k * BLOCK_BITS + c) / (BLOCK_BITS as int) == k,
        (k * BLOCK_BITS + c) % (BLOCK_BITS as int) == c,
{
    assert((k * BLOCK_BITS + c) / (BLOCK_BITS as int) == k) by (nonlinear_arith)
        requires 0 <= c < BLOCK_BITS, 0 <= k;
    assert((k * BLOCK_BITS + c) % (BLOCK_BITS as int) == c) by (nonlinear_arith)
        requires 0 <= c < BLOCK_BITS, 0 <= k;
}

/// Whether every bit of block bytes `data` is set.
pub open spec fn block_full(data: Seq<u8>) -> bool {
    forall|c: int| 0 <= c < BLOCK_BITS ==> #[trigger] bit_of(data, c)
}

/// No bit of an all-zero block is set.
pub proof fn lemma_zero_block_bits(c: int)
    requires
        0 <= c < BLOCK_BITS,
    ensures
        !bit_of(Seq::new(BLOCK_SZ as nat, |i: int| 0u8), c),
{
    let z = Seq::new(BLOCK_SZ as nat, |i: int| 0u8);
    let w = c / 64;
    crate::mm::phys_mem::lemma_zero_page_words();
    assert(z.subrange(8 * w, 8 * w + 8) =~= crate::mm::phys_mem::zero_page().subrange(8 * w, 8 * w + 8));
    assert(word_of(z, w) == word_of(crate::mm::phys_mem::zero_page(), w));
    let sh = (c % 64) as u64;
    assert((0u64 >> sh) & 1u64 == 0u64) by (bit_vector);
}

impl Bitmap {
    /// First block of the bitmap.
    pub closed spec fn start(&self) -> usize {
        self.start_block_id
    }

    /// Number of blocks of the bitmap.
    pub closed spec fn num_blocks(&self) -> usize {
        self.blocks
    }

    /// A bitmap spanning `blocks` blocks from block `start_block_id`.
    pub fn new(start_block_id: usize, blocks: usize) -> (b: Self)
        ensures
            b.start() == start_block_id,
            b.num_blocks() == blocks,
    {
        Bitmap { start_block_id, blocks }
    }

    /// Whether block `block_id` is one of the bitmap's blocks.
    pub open spec fn covers(&self, block_id: usize) -> bool {
        self.start() <= block_id < self.start() + self.num_blocks()
    }

    /// Number of bits of the bitmap.
    pub fn maximum(&self) -> (n: usize)
        requires
            self.num_blocks() * BLOCK_BITS <= usize::MAX,
        ensures
            n == self.num_blocks() * BLOCK_BITS,
    {
        self.blocks * BLOCK_BITS
    }

    /// Sets the lowest clear bit of the cached block at position `idx` and
    /// returns its number within the block, or `None` if every bit is set.
    fn alloc_in_block<D: BlockDevice>(manager: &mut BlockCacheManager<D>, idx: usize) -> (r: Option<usize>)
        requires
            old(manager).wf(),
            idx < old(manager).caches().len(),
        ensures
            final(manager).wf(),
            final(manager).caches().len() == old(manager).caches().len(),
            final(manager).caches()[idx as int].id() == old(manager).caches()[idx as int].id(),
            forall|j: int| 0 <= j < old(manager).caches().len() && j != idx ==> final(manager).caches()[j] == old(manager).caches()[j],
            forall|b: usize| old(manager).written(b) ==> #[trigger] final(manager).written(b),
            ({
                let old_data = old(manager).caches()[idx as int].data();
                let new_data = final(manager).caches()[idx as int].data();
                match r {
                    Some(b) => {
                        &&& b < BLOCK_BITS
                        &&& !bit_of(old_data, b as int)
                        &&& forall|c: int| 0 <= c < b ==> #[trigger] bit_of(old_data, c)
                        &&& bit_of(new_data, b as int)
                        &&& forall|c: int| 0 <= c < BLOCK_BITS && c != b ==> #[trigger] bit_of(new_data, c) == bit_of(old_data, c)
                        &&& final(manager).caches()[idx as int].is_modified()
                    },
                    None => {
                        &&& forall|c: int| 0 <= c < BLOCK_BITS ==> #[trigger] bit_of(old_data, c)
                        &&& final(manager).caches() == old(manager).caches()
                    },
                }
            }),
    {
        let ghost old_data = manager.caches()[idx as int].data();
        proof {
            assert(manager.caches()[idx as int].wf());
        }
        let mut w: usize = 0;
        while w < 64
            invariant
                w <= 64,
                manager.wf(),
                idx < manager.caches().len(),
                manager.caches() == old(manager).caches(),
                manager.retired_ops() == old(manager).retired_ops(),
                old_data == manager.caches()[idx as int].data(),
                old_data.len() == BLOCK_SZ,
                forall|c: int| 0 <= c < 64 * w ==> #[trigger] bit_of(old_data, c),
            decreases 64 - w,
        {
            let bytes = manager.read(idx, 8 * w, 8);
            let x = vstd::bytes::u64_from_le_bytes(bytes.as_slice());
            if x != 0xffff_ffff_ffff_ffffu64 {
                let inner = x.trailing_ones() as usize;
                proof {
                    vstd::std_specs::bits::axiom_u64_trailing_ones(x);
                }
                let nx = x | (1u64 << (inner as u64));
                let nbytes = vstd::bytes::u64_to_le_bytes(nx);
                manager.modify(idx, 8 * w, nbytes.as_slice());
                proof {
                    assert(x == word_of(old_data, w as int));
                    lemma_bit_update(old_data, w as int, x, inner as u64, true, nx);
                    let nd = manager.caches()[idx as int].data();
                    assert(nd =~= with_word(old_data, w as int, nx));
                    let b = w * 64 + inner;
                    assert(b == 64 * w + inner);
                    assert forall|c: int| 0 <= c < BLOCK_BITS && c != b implies #[trigger] bit_of(nd, c) == bit_of(old_data, c) by {
                        assert(bit_of(with_word(old_data, w as int, nx), c) == bit_of(old_data, c));
                    }
                    assert forall|c: int| 0 <= c < 64 * w + inner implies #[trigger] bit_of(old_data, c) by {
                        if c >= 64 * w {
                            assert(c / 64 == w);
                            let j = (c % 64) as u64;
                            assert(j < inner);
                            assert((x >> j) & 1u64 == 1u64);
                        }
                    }
                }
                return Some(w * 64 + inner);
            }
            proof {
                assert(x == word_of(old_data, w as int));
                assert forall|c: int| 0 <= c < 64 * (w + 1) implies #[trigger] bit_of(old_data, c) by {
                    if c >= 64 * w {
                        assert(c / 64 == w);
                        lemma_full_word((c % 64) as u64);
                    }
                }
            }
            w = w + 1;
        }
        None
    }

    /// Whether every block of the bitmap is cached in `manager`.
    pub open spec fn all_cached<D: BlockDevice>(&self, manager: &BlockCacheManager<D>) -> bool {
        forall|b: usize| self.covers(b) ==> #[trigger] manager.holds(b)
    }

    /// Bit `pos` of the bitmap as cached in `manager`.
    pub open spec fn cached_bit<D: BlockDevice>(&self, manager: &BlockCacheManager<D>, pos: int) -> bool {
        bit_of(manager.block_data((self.start() + pos / BLOCK_BITS as int) as usize), pos % BLOCK_BITS as int)
    }

    /// Allocates the lowest clear bit of the first bitmap block that has one,
    /// scanning the blocks in order, and returns its bit number. When every
    /// block of the bitmap is cached, the answer is the lowest clear bit of
    /// the whole bitmap, or `None` exactly when every bit is set.
    pub fn allocate<D: BlockDevice>(&self, manager: &mut BlockCacheManager<D>, block_device: &Arc<D>) -> (r: Option<usize>)
        requires
            old(manager).wf(),
            self.start() + self.num_blocks() <= usize::MAX,
            self.num_blocks() * BLOCK_BITS <= usize::MAX,
        ensures
            final(manager).wf(),
            forall|k: int| 0 <= k < final(manager).caches().len() && !self.covers(#[trigger] final(manager).caches()[k].id())
                ==> old(manager).caches().contains(final(manager).caches()[k]),
            forall|b: usize| old(manager).written(b) ==> #[trigger] final(manager).written(b),
            r matches Some(pos) ==> {
                &&& pos < self.num_blocks() * BLOCK_BITS
                &&& final(manager).holds((self.start() + pos / BLOCK_BITS) as usize)
                &&& bit_of(final(manager).block_data((self.start() + pos / BLOCK_BITS) as usize), (pos % BLOCK_BITS) as int)
            },
            self.all_cached(old(manager)) ==> match r {
                Some(pos) => {
                    &&& !self.cached_bit(old(manager), pos as int)
                    &&& forall|q: int| 0 <= q < pos ==> #[trigger] self.cached_bit(old(manager), q)
                },
                None => forall|q: int| 0 <= q < self.num_blocks() * BLOCK_BITS ==> #[trigger] self.cached_bit(old(manager), q),
            },
            forall|k: int| 0 <= k < final(manager).caches().len()
                && !(r matches Some(pos) && final(manager).caches()[k].id() == self.start() + pos / BLOCK_BITS)
                ==> old(manager).caches().contains(#[trigger] final(manager).caches()[k])
                    || (self.covers(final(manager).caches()[k].id()) && block_full(final(manager).caches()[k].data())),
            r matches Some(pos) ==> forall|c: int| 0 <= c < pos % BLOCK_BITS
                ==> #[trigger] bit_of(final(manager).block_data((self.start() + pos / BLOCK_BITS) as usize), c),
            self.all_cached(old(manager)) && r is None ==> final(manager).caches() == old(manager).caches(),
            self.num_blocks() > 0 && old(manager).holds(self.start()) && !block_full(old(manager).block_data(self.start())) ==> {
                let data = old(manager).block_data(self.start());
                &&& r matches Some(pos)
                &&& pos < BLOCK_BITS
                &&& !bit_of(data, pos as int)
                &&& forall|c: int| 0 <= c < pos ==> #[trigger] bit_of(data, c)
            },
            self.all_cached(old(manager)) ==> (r matches Some(pos) ==> {
                let b = (self.start() + pos / BLOCK_BITS) as usize;
                &&& final(manager).caches().len() == old(manager).caches().len()
                &&& forall|k: int| 0 <= k < old(manager).caches().len() && old(manager).caches()[k].id() != b
                    ==> #[trigger] final(manager).caches()[k] == old(manager).caches()[k]
                &&& forall|c: int| 0 <= c < BLOCK_BITS && c != pos % BLOCK_BITS
                    ==> #[trigger] bit_of(final(manager).block_data(b), c) == bit_of(old(manager).block_data(b), c)
            }),
    {
        let mut block_id: usize = 0;
        while block_id < self.blocks
            invariant
                block_id <= self.blocks,
                manager.wf(),
                self.start() + self.num_blocks() <= usize::MAX,
                self.num_blocks() * BLOCK_BITS <= usize::MAX,
                forall|k: int| 0 <= k < manager.caches().len() && !self.covers(#[trigger] manager.caches()[k].id())
                    ==> old(manager).caches().contains(manager.caches()[k]),
                self.all_cached(old(manager)) ==> manager.caches() == old(manager).caches(),
                forall|b: usize| old(manager).written(b) ==> #[trigger] manager.written(b),
                block_id == 0 ==> manager.caches() == old(manager).caches(),
                block_id > 0 && old(manager).holds(self.start()) ==> block_full(old(manager).block_data(self.start())),
                self.all_cached(old(manager)) ==> forall|q: int| 0 <= q < block_id * BLOCK_BITS ==> #[trigger] self.cached_bit(old(manager), q),
                forall|k: int| 0 <= k < manager.caches().len() ==> old(manager).caches().contains(#[trigger] manager.caches()[k])
                    || (self.covers(manager.caches()[k].id()) && block_full(manager.caches()[k].data())),
            decreases self.blocks - block_id,
        {
            let ghost c0 = manager.caches();
            let idx = manager.get_block_cache(block_id + self.start_block_id, block_device);
            let ghost c1 = manager.caches();
            let found = Self::alloc_in_block(manager, idx);
            proof {
                let c2 = manager.caches();
                assert forall|k: int| 0 <= k < c2.len() && !self.covers(#[trigger] c2[k].id())
                    implies old(manager).caches().contains(c2[k]) by {
                    assert(k != idx);
                    assert(c2[k] == c1[k]);
                    assert(c0.contains(c1[k]));
                    let k0 = choose|k0: int| 0 <= k0 < c0.len() && c0[k0] == c1[k];
                    assert(!self.covers(c0[k0].id()));
                }
                assert forall|k: int| 0 <= k < c2.len() && k != idx implies old(manager).caches().contains(#[trigger] c2[k])
                    || (self.covers(c2[k].id()) && block_full(c2[k].data())) by {
                    assert(c2[k] == c1[k]);
                    assert(c0.contains(c1[k]));
                    let k0 = choose|k0: int| 0 <= k0 < c0.len() && c0[k0] == c1[k];
                    assert(old(manager).caches().contains(c0[k0]) || (self.covers(c0[k0].id()) && block_full(c0[k0].data())));
                }
            }
            proof {
                if self.all_cached(old(manager)) {
                    assert(self.covers((self.start() + block_id) as usize));
                    assert(old(manager).holds((self.start() + block_id) as usize));
                    let k = choose|k: int| 0 <= k < c0.len() && #[trigger] c0[k].id() == (self.start() + block_id) as usize;
                    assert(c1 == c0 && idx == k);
                    old(manager).lemma_block_data(idx as int);
                    assert forall|c: int| 0 <= c < BLOCK_BITS implies self.cached_bit(old(manager), block_id * BLOCK_BITS + c)
                        == bit_of(c1[idx as int].data(), c) by {
                        lemma_bit_position(block_id as int, c);
                    }
                }
            }
            proof {
                if block_id == 0 && old(manager).holds(self.start()) {
                    let k = choose|k: int| 0 <= k < c0.len() && #[trigger] c0[k].id() == self.start();
                    assert(c0[k].id() == (block_id + self.start()) as usize);
                    assert(c1 == c0 && idx == k);
                    old(manager).lemma_block_data(idx as int);
                }
            }
            match found {
                Some(b) => {
                    proof {
                        assert(block_id * BLOCK_BITS + b < self.num_blocks() * BLOCK_BITS) by (nonlinear_arith)
                            requires block_id < self.num_blocks(), b < BLOCK_BITS;
                        lemma_bit_position(block_id as int, b as int);
                        assert(manager.caches()[idx as int].id() == self.start() + block_id);
                        manager.lemma_block_data(idx as int);
                        let bb = (self.start() + block_id) as usize;
                        assert(manager.block_data(bb) == manager.caches()[idx as int].data());
                        assert forall|c: int| 0 <= c < b implies #[trigger] bit_of(manager.block_data(bb), c) by {
                            assert(bit_of(c1[idx as int].data(), c));
                        }
                        assert forall|k: int| 0 <= k < manager.caches().len() && manager.caches()[k].id() == bb implies k == idx by {
                            if k != idx {
                                if k < idx {
                                    assert(manager.caches()[k].id() != manager.caches()[idx as int].id());
                                } else {
                                    assert(manager.caches()[idx as int].id() != manager.caches()[k].id());
                                }
                            }
                        }
                        if self.all_cached(old(manager)) {
                            assert(c1 == old(manager).caches());
                            old(manager).lemma_block_data(idx as int);
                            assert forall|c: int| 0 <= c < BLOCK_BITS && c != b
                                implies #[trigger] bit_of(manager.block_data(bb), c) == bit_of(old(manager).block_data(bb), c) by {
                                assert(bit_of(manager.caches()[idx as int].data(), c) == bit_of(c1[idx as int].data(), c));
                            }
                            assert forall|k: int| 0 <= k < old(manager).caches().len() && old(manager).caches()[k].id() != bb
                                implies #[trigger] manager.caches()[k] == old(manager).caches()[k] by {
                                assert(k != idx);
                            }
                            assert forall|q: int| 0 <= q < block_id * BLOCK_BITS + b implies #[trigger] self.cached_bit(old(manager), q) by {
                                if q >= block_id * BLOCK_BITS {
                                    let c = q - block_id * BLOCK_BITS;
                                    assert(self.cached_bit(old(manager), block_id * BLOCK_BITS + c) == bit_of(c1[idx as int].data(), c));
                                }
                            }
                            assert(self.cached_bit(old(manager), block_id * BLOCK_BITS + b) == bit_of(c1[idx as int].data(), b as int));
                        }
                    }
                    return Some(block_id * BLOCK_BITS + b);
                },
                None => {
                    proof {
                        if self.all_cached(old(manager)) {
                            assert forall|q: int| 0 <= q < (block_id + 1) * BLOCK_BITS implies #[trigger] self.cached_bit(old(manager), q) by {
                                if q >= block_id * BLOCK_BITS {
                                    let c = q - block_id * BLOCK_BITS;
                                    assert(self.cached_bit(old(manager), block_id * BLOCK_BITS + c) == bit_of(c1[idx as int].data(), c));
                                }
                            }
                        }
                    }
                },
            }
            block_id = block_id + 1;
        }
        None
    }

    /// Clears bit number `bit`, which must be set where its block is cached.
    /// Returns whether the bit was set: where the block is read from the
    /// device, a clear bit is left as it is and `false` returned.
    pub fn dealloc<D: BlockDevice>(&self, manager: &mut BlockCacheManager<D>, block_device: &Arc<D>, bit: usize) -> (freed: bool)
        requires
            old(manager).wf(),
            self.start() + bit / BLOCK_BITS <= usize::MAX,
            old(manager).holds((self.start() + bit / BLOCK_BITS) as usize) ==> bit_of(
                old(manager).block_data((self.start() + bit / BLOCK_BITS) as usize), (bit % BLOCK_BITS) as int),
        ensures
            final(manager).wf(),
            final(manager).holds((self.start() + bit / BLOCK_BITS) as usize),
            !bit_of(final(manager).block_data((self.start() + bit / BLOCK_BITS) as usize), (bit % BLOCK_BITS) as int),
            old(manager).holds((self.start() + bit / BLOCK_BITS) as usize) ==> freed == bit_of(
                old(manager).block_data((self.start() + bit / BLOCK_BITS) as usize), (bit % BLOCK_BITS) as int),
            forall|k: int| 0 <= k < final(manager).caches().len() && final(manager).caches()[k].id() != self.start() + bit / BLOCK_BITS
                ==> old(manager).caches().contains(#[trigger] final(manager).caches()[k]),
            old(manager).holds((self.start() + bit / BLOCK_BITS) as usize) ==> {
                let b = (self.start() + bit / BLOCK_BITS) as usize;
                &&& final(manager).caches().len() == old(manager).caches().len()
                &&& forall|k: int| 0 <= k < old(manager).caches().len() && old(manager).caches()[k].id() != b
                    ==> #[trigger] final(manager).caches()[k] == old(manager).caches()[k]
                &&& forall|c: int| 0 <= c < BLOCK_BITS && c != bit % BLOCK_BITS
                    ==> #[trigger] bit_of(final(manager).block_data(b), c) == bit_of(old(manager).block_data(b), c)
            },
    {
        let (block_pos, bits64_pos, inner_pos) = decomposition(bit);
        let ghost c0 = manager.caches();
        let idx = manager.get_block_cache(block_pos + self.start_block_id, block_device);
        let ghost old_data = manager.caches()[idx as int].data();
        let ghost c1 = manager.caches();
        proof {
            let b = (self.start() + bit / BLOCK_BITS) as usize;
            assert forall|k: int| 0 <= k < c1.len() && c1[k].id() == b implies k == idx by {
                if k != idx {
                    if k < idx {
                        assert(c1[k].id() != c1[idx as int].id());
                    } else {
                        assert(c1[idx as int].id() != c1[k].id());
                    }
                }
            }
            if old(manager).holds(b) {
                let k = choose|k: int| 0 <= k < c0.len() && #[trigger] c0[k].id() == b;
                assert(manager.caches() == c0 && idx == k);
                old(manager).lemma_block_data(idx as int);
            }
            assert(manager.caches()[idx as int].wf());
            assert(bits64_pos < 64) by (nonlinear_arith)
                requires bits64_pos == (bit % BLOCK_BITS) / 64;
            assert(64 * bits64_pos + inner_pos == (bit % BLOCK_BITS) as int) by (nonlinear_arith)
                requires bits64_pos == (bit % BLOCK_BITS) / 64, inner_pos == bit % 64;
        }
        let bytes = manager.read(idx, 8 * bits64_pos, 8);
        let x = vstd::bytes::u64_from_le_bytes(bytes.as_slice());
        proof {
            assert(x == word_of(old_data, bits64_pos as int));
            lemma_word_bits(x, inner_pos as u64);
        }
        if x & (1u64 << (inner_pos as u64)) > 0 {
            let nx = x - (1u64 << (inner_pos as u64));
            let nbytes = vstd::bytes::u64_to_le_bytes(nx);
            manager.modify(idx, 8 * bits64_pos, nbytes.as_slice());
            proof {
                lemma_bit_update(old_data, bits64_pos as int, x, inner_pos as u64, false, nx);
                assert(manager.caches()[idx as int].data() =~= with_word(old_data, bits64_pos as int, nx));
                manager.lemma_block_data(idx as int);
                let b = (self.start() + bit / BLOCK_BITS) as usize;
                assert forall|k: int| 0 <= k < manager.caches().len() && manager.caches()[k].id() != b
                    implies old(manager).caches().contains(#[trigger] manager.caches()[k]) by {
                    assert(k != idx);
                    assert(manager.caches()[k] == c1[k]);
                }
                if old(manager).holds(b) {
                    assert forall|c: int| 0 <= c < BLOCK_BITS && c != bit % BLOCK_BITS
                        implies #[trigger] bit_of(manager.block_data(b), c) == bit_of(old(manager).block_data(b), c) by {
                        assert(bit_of(with_word(old_data, bits64_pos as int, nx), c) == bit_of(old_data, c));
                    }
                    assert forall|k: int| 0 <= k < old(manager).caches().len() && old(manager).caches()[k].id() != b
                        implies #[trigger] manager.caches()[k] == old(manager).caches()[k] by {
                        assert(k != idx);
                    }
                }
            }
            true
        } else {
            proof {
                assert((64 * bits64_pos + inner_pos) / 64 == bits64_pos);
                assert((64 * bits64_pos + inner_pos) % 64 == inner_pos);
                manager.lemma_block_data(idx as int);
                let b = (self.start() + bit / BLOCK_BITS) as usize;
                assert forall|k: int| 0 <= k < manager.caches().len() && manager.caches()[k].id() != b
                    implies old(manager).caches().contains(#[trigger] manager.caches()[k]) by {
                    assert(k != idx);
                }
            }
            false
        }
    }
}

} // verus!
