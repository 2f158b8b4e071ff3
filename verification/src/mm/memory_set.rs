//! Address spaces: areas of virtual pages mapped through one page table.
//!
//! An area is a range of virtual pages with one way of mapping them
//! (identically onto the physical page of the same number, or onto frames
//! of its own) and one set of permissions. An address space owns a page
//! table and its areas.
use vstd::prelude::*;
use std::collections::BTreeMap;
use crate::mm::address::{PhysAddr, VirtAddr, VirtPageNum, PhysPageNum, VPNRange, ceil_fits, ceil_page};
use crate::mm::frame_allocator::{FrameTracker, StackFrameAllocator, FrameAllocatorModel, frame_alloc, frame_dealloc,
    lemma_alloc_fresh, lemma_dealloc_frees};
use crate::mm::page_table::{PageTable, PageTableEntry, mem_fits_ptes, PTEFlags, walk, idx0, idx1, alloc_ready, frames_left, frames_needed, mapping, pte_bits, pte_flags, remapped,
    same_slot, table_grows, keeps_data_pages, lemma_alloc_keeps_ready, lemma_alloc_free_shrinks, lemma_alloc_some,
    lemma_near_pages_distinct_slots};
use crate::mm::phys_mem::{PhysMemory, zero_page};
use crate::config::{PAGE_SIZE, TRAMPOLINE, TRAP_CONTEXT, USER_STACK_SIZE, MEMORY_END, MMIO};

verus! {

broadcast use vstd::laws_cmp::group_laws_cmp;

/// Access permissions of an area, as page-table flag bits.
#[derive(Copy, Clone, Debug, PartialEq, Eq, Structural)]
pub struct MapPermission {
    pub bits: u8,
}

impl MapPermission {
    /// Readable.
    pub const R: u8 = 2;
    /// Writable.
    pub const W: u8 = 4;
    /// Executable.
    pub const X: u8 = 8;
    /// Accessible from user mode.
    pub const U: u8 = 16;

    /// The permissions in either `self` or `other`.
    pub fn union(self, other: Self) -> (p: Self)
        ensures
            p.bits == self.bits | other.bits,
    {
        MapPermission { bits: self.bits | other.bits }
    }
}

/// How the pages of an area are backed.
#[derive(Copy, Clone, Debug, PartialEq, Eq, Structural)]
pub enum MapType {
    /// Each virtual page maps the physical page with the same number.
    Identical,
    /// Each virtual page maps a frame of its own.
    Framed,
}

/// The part of `data` that goes to page `j` of an area: the page's worth of
/// bytes from offset `j * PAGE_SIZE`, fewer at the end, none past the end.
pub open spec fn chunk(data: Seq<u8>, j: int) -> Seq<u8> {
    if j * PAGE_SIZE >= data.len() {
        Seq::empty()
    } else if (j + 1) * PAGE_SIZE <= data.len() {
        data.subrange(j * PAGE_SIZE, (j + 1) * PAGE_SIZE)
    } else {
        data.subrange(j * PAGE_SIZE, data.len() as int)
    }
}

/// `page` with its first bytes replaced by `d`.
pub open spec fn with_prefix(page: Seq<u8>, d: Seq<u8>) -> Seq<u8> {
    d + page.subrange(d.len() as int, page.len() as int)
}

/// Frames that mapping pages `lo .. hi` may take: two page tables for each
/// block of 512 pages that the range touches, and `per_page` frames for
/// each page.
pub open spec fn frames_for(lo: int, hi: int, per_page: int) -> int {
    if hi <= lo {
        0
    } else {
        2 * ((hi - 1) / 512 - lo / 512 + 1) + per_page * (hi - lo)
    }
}

/// A page that is not the first of its 512-page block has the upper two
/// indexes of the page before it.
proof fn lemma_same_block(k: usize)
    requires
        k % 512 != 0,
    ensures
        idx0(k) == idx0((k - 1) as usize),
        idx1(k) == idx1((k - 1) as usize),
{
    let j = (k - 1) as usize;
    assert((k / 262144) % 512 == (j / 262144) % 512 && (k / 512) % 512 == (j / 512) % 512) by (bit_vector)
        requires
            k % 512 != 0,
            j == k - 1;
}

/// Budget step: mapping page `k` after `lo .. k` takes at most what the
/// budget of `lo .. k + 1` adds over that of `lo .. k`, and budgets grow with
/// the range.
proof fn lemma_frames_for_step(lo: usize, k: usize, hi: usize, per_page: int)
    requires
        lo <= k < hi,
        per_page >= 0,
    ensures
        frames_for(lo as int, k as int, per_page) + per_page <= frames_for(lo as int, k + 1, per_page),
        frames_for(lo as int, k + 1, per_page) <= frames_for(lo as int, hi as int, per_page),
        (k == lo || k % 512 == 0) ==> frames_for(lo as int, k as int, per_page) + 2 + per_page
            <= frames_for(lo as int, k + 1, per_page),
{
    vstd::arithmetic::div_mod::lemma_div_is_ordered(k as int, (hi - 1) as int, 512);
    if k > lo {
        vstd::arithmetic::div_mod::lemma_div_is_ordered((k - 1) as int, k as int, 512);
        vstd::arithmetic::div_mod::lemma_div_is_ordered(lo as int, (k - 1) as int, 512);
        if k % 512 == 0 {
            assert(k as int / 512 == (k - 1) as int / 512 + 1) by {
                vstd::arithmetic::div_mod::lemma_fundamental_div_mod(k as int, 512);
                vstd::arithmetic::div_mod::lemma_fundamental_div_mod((k - 1) as int, 512);
            }
        }
    } else {
        vstd::arithmetic::div_mod::lemma_div_is_ordered(lo as int, k as int, 512);
    }
    assert(per_page * (k + 1 - lo) == per_page * (k - lo) + per_page) by (nonlinear_arith);
    if hi > k + 1 {
        assert(per_page * (hi - lo) >= per_page * (k + 1 - lo)) by (nonlinear_arith)
            requires
                per_page >= 0,
                hi > k + 1,
        ;
    }
}

/// A range of virtual pages mapped one way with one set of permissions.
pub struct MapArea {
    vpn_range: VPNRange,
    data_frames: BTreeMap<usize, FrameTracker>,
    map_type: MapType,
    map_perm: MapPermission,
}

impl MapArea {
    /// First page of the area.
    pub closed spec fn start(&self) -> usize {
        self.vpn_range.lo()
    }

    /// One past the last page of the area.
    pub closed spec fn end(&self) -> usize {
        self.vpn_range.hi()
    }

    /// How the area is backed.
    pub closed spec fn kind(&self) -> MapType {
        self.map_type
    }

    /// The area's permission bits.
    pub closed spec fn perm(&self) -> u8 {
        self.map_perm.bits
    }

    /// The frames the area owns, by virtual page.
    pub closed spec fn frames(&self) -> Map<usize, usize> {
        self.data_frames@.map_values(|f: FrameTracker| f.ppn.0)
    }

    /// Whether page `v` lies in the area.
    pub open spec fn contains(&self, v: usize) -> bool {
        self.start() <= v < self.end()
    }

    /// The physical page that page `v` of the area maps.
    pub open spec fn ppn_of(&self, v: usize) -> usize {
        match self.kind() {
            MapType::Identical => v,
            MapType::Framed => self.frames()[v],
        }
    }

    /// The entry that maps page `v` of the area.
    pub open spec fn pte_of(&self, v: usize) -> usize {
        pte_bits(self.ppn_of(v), self.perm() | 1u8)
    }

    /// Frames a page of the area takes besides page tables.
    pub open spec fn frames_per_page(&self) -> int {
        if self.kind() == MapType::Framed {
            1
        } else {
            0
        }
    }

    /// The owned frames are in memory, no table page of `pt`, and pairwise
    /// distinct.
    pub open spec fn frames_placed(&self, pt: &PageTable, mem: PhysMemory) -> bool {
        &&& forall|v: usize| #[trigger] self.frames().contains_key(v) ==> {
            &&& !pt.is_table(self.frames()[v])
            &&& mem.has_page(self.frames()[v])
        }
        &&& forall|v: usize, w: usize| #[trigger] self.frames().contains_key(v) && #[trigger] self.frames().contains_key(w)
            && v != w ==> self.frames()[v] != self.frames()[w]
    }

    /// The owned frames are placed as above and in use in `alloc`.
    pub open spec fn frames_ok(&self, pt: &PageTable, alloc: FrameAllocatorModel, mem: PhysMemory) -> bool {
        &&& self.frames_placed(pt, mem)
        &&& forall|v: usize| #[trigger] self.frames().contains_key(v) ==> alloc.in_use(self.frames()[v])
    }

    /// An area for the pages that cover `[start_va, end_va)`, with no
    /// frames yet.
    pub fn new(start_va: VirtAddr, end_va: VirtAddr, map_type: MapType, map_perm: MapPermission) -> (a: Self)
        requires
            ceil_fits(end_va.0),
            start_va.0 / PAGE_SIZE <= ceil_page(end_va.0 as int),
        ensures
            a.start() == start_va.0 / PAGE_SIZE,
            a.end() == ceil_page(end_va.0 as int),
            a.kind() == map_type,
            a.perm() == map_perm.bits,
            a.frames() == Map::<usize, usize>::empty(),
    {
        let start_vpn = start_va.floor();
        let end_vpn = end_va.ceil();
        let a = MapArea {
            vpn_range: VPNRange::new(start_vpn, end_vpn),
            data_frames: BTreeMap::new(),
            map_type,
            map_perm,
        };
        assert(a.frames() =~= Map::<usize, usize>::empty());
        a
    }

    /// An area over the same pages as `another`, backed and permitted the
    /// same way, with no frames yet.
    pub fn from_another(another: &MapArea) -> (a: Self)
        requires
            another.start() <= another.end(),
        ensures
            a.start() == another.start(),
            a.end() == another.end(),
            a.kind() == another.kind(),
            a.perm() == another.perm(),
            a.frames() == Map::<usize, usize>::empty(),
    {
        let a = MapArea {
            vpn_range: VPNRange::new(another.vpn_range.get_start(), another.vpn_range.get_end()),
            data_frames: BTreeMap::new(),
            map_type: another.map_type,
            map_perm: another.map_perm,
        };
        assert(a.frames() =~= Map::<usize, usize>::empty());
        a
    }

    /// Maps page `vpn` in `page_table`: onto the page of the same number for
    /// an identical area, onto a fresh zeroed frame that the area keeps for a
    /// framed one. The page must not be mapped, and the allocator must have
    /// the frames this takes.
    pub fn map_one(&mut self, page_table: &mut PageTable, alloc: &mut StackFrameAllocator, mem: &mut PhysMemory, vpn: VirtPageNum)
        requires
            old(page_table).wf(*old(mem)),
            old(page_table).tables_in_use(old(alloc)@),
            alloc_ready(old(alloc)@, *old(mem)),
            mapping(*old(mem), old(page_table).root(), vpn.0) is None,
            frames_needed(*old(mem), old(page_table).root(), vpn.0) + old(self).frames_per_page() <= frames_left(old(alloc)@),
            old(self).kind() == MapType::Framed ==> !old(self).frames().contains_key(vpn.0),
        ensures
            final(page_table).wf(*final(mem)),
            final(page_table).tables_in_use(final(alloc)@),
            alloc_ready(final(alloc)@, *final(mem)),
            table_grows(old(page_table), final(page_table), old(alloc)@, final(alloc)@, *old(mem), *final(mem)),
            final(self).start() == old(self).start(),
            final(self).end() == old(self).end(),
            final(self).kind() == old(self).kind(),
            final(self).perm() == old(self).perm(),
            old(self).kind() == MapType::Identical ==> final(self).frames() == old(self).frames(),
            old(self).kind() == MapType::Framed ==> {
                let p = final(self).frames()[vpn.0];
                &&& final(self).frames() == old(self).frames().insert(vpn.0, p)
                &&& old(alloc)@.is_free(p)
                &&& final(alloc)@.in_use(p)
                &&& !final(page_table).is_table(p)
                &&& final(mem).has_page(p)
                &&& final(mem).page(p) == zero_page()
            },
            remapped(*old(mem), *final(mem), final(page_table).root(), vpn.0, Some(final(self).pte_of(vpn.0))),
            frames_left(final(alloc)@) == frames_left(old(alloc)@) - frames_needed(*old(mem), old(page_table).root(), vpn.0)
                - old(self).frames_per_page(),
            forall|q: usize| old(mem).has_page(q) && !final(page_table).is_table(q)
                && !(old(self).kind() == MapType::Framed && q == final(self).frames()[vpn.0])
                ==> final(mem).page(q) == old(mem).page(q),
    {
        let ghost m0 = *mem;
        let ghost a0 = alloc@;
        let ppn: PhysPageNum;
        match self.map_type {
            MapType::Identical => {
                ppn = PhysPageNum(vpn.0);
            },
            MapType::Framed => {
                proof {
                    page_table.lemma_wf_facts(*mem);
                    lemma_alloc_fresh(alloc@);
                    if alloc@.recycled.len() > 0 {
                        assert(alloc@.recycled.contains(alloc@.recycled.last()));
                    }
                }
                let frame = frame_alloc(alloc, mem).unwrap();
                ppn = frame.ppn;
                proof {
                    let a1 = alloc@;
                    let m1 = *mem;
                    assert(!page_table.is_table(ppn.0)) by {
                        if page_table.is_table(ppn.0) {
                            assert(a0.in_use(ppn.0));
                        }
                    }
                    assert forall|q: usize| page_table.is_table(q) implies m1.page(q) == m0.page(q) by {
                        assert(q != ppn.0);
                    }
                    page_table.lemma_other_pages(m0, m1);
                    lemma_alloc_keeps_ready(a0, m0, m1);
                    assert forall|p: usize| page_table.is_table(p) implies a1.in_use(p) by {
                        assert(a0.in_use(p));
                    }
                    lemma_alloc_free_shrinks(a0);
                    lemma_alloc_some(a0);
                    assert(frames_left(a1) == frames_left(a0) - 1);
                    assert(frames_needed(m1, page_table.root(), vpn.0) == frames_needed(m0, page_table.root(), vpn.0));
                }
                self.data_frames.insert(vpn.0, frame);
            },
        }
        let ghost m1 = *mem;
        let ghost a1 = alloc@;
        let ghost pt1 = *page_table;
        let pte_flags = PTEFlags::from_bits(self.map_perm.bits).unwrap();
        page_table.map(alloc, mem, vpn, ppn, pte_flags);
        proof {
            assert(self.frames() =~= old(self).frames().insert(vpn.0, ppn.0) || self.kind() == MapType::Identical);
            if self.kind() == MapType::Identical {
                assert(self.frames() =~= old(self).frames());
            }
            assert(final(self).pte_of(vpn.0) == pte_bits(ppn.0, pte_flags.bits | PTEFlags::V));
            assert forall|p: usize| page_table.is_table(p) && !old(page_table).is_table(p) implies a0.is_free(p) && alloc@.in_use(p) by {
                assert(a1.is_free(p));
            }
            assert forall|q: usize| m0.has_page(q) && !page_table.is_table(q)
                && !(old(self).kind() == MapType::Framed && q == self.frames()[vpn.0]) implies mem.page(q) == m0.page(q) by {
                assert(m1.page(q) == m0.page(q));
            }
        }
    }

    /// Removes the mapping of page `vpn`, which must be mapped; a framed
    /// area gives the page's frame back to the allocator.
    pub fn unmap_one(&mut self, page_table: &mut PageTable, alloc: &mut StackFrameAllocator, mem: &mut PhysMemory, vpn: VirtPageNum)
        requires
            old(page_table).wf(*old(mem)),
            old(page_table).tables_in_use(old(alloc)@),
            alloc_ready(old(alloc)@, *old(mem)),
            mapping(*old(mem), old(page_table).root(), vpn.0) is Some,
            old(self).frames_ok(old(page_table), old(alloc)@, *old(mem)),
        ensures
            *final(page_table) == *old(page_table),
            final(page_table).wf(*final(mem)),
            final(page_table).tables_in_use(final(alloc)@),
            alloc_ready(final(alloc)@, *final(mem)),
            final(self).start() == old(self).start(),
            final(self).end() == old(self).end(),
            final(self).kind() == old(self).kind(),
            final(self).perm() == old(self).perm(),
            final(self).frames() == if old(self).kind() == MapType::Framed {
                old(self).frames().remove(vpn.0)
            } else {
                old(self).frames()
            },
            final(alloc)@ == if old(self).kind() == MapType::Framed && old(self).frames().contains_key(vpn.0) {
                old(alloc)@.dealloc_spec(old(self).frames()[vpn.0])
            } else {
                old(alloc)@
            },
            final(self).frames_ok(final(page_table), final(alloc)@, *final(mem)),
            remapped(*old(mem), *final(mem), final(page_table).root(), vpn.0, None),
            final(mem).base() == old(mem).base(),
            final(mem).num_pages() == old(mem).num_pages(),
            keeps_data_pages(final(page_table), *old(mem), *final(mem)),
    {
        let ghost f0 = self.frames();
        let ghost a0 = alloc@;
        if self.map_type == MapType::Framed {
            let removed = self.data_frames.remove(&vpn.0);
            match removed {
                Some(frame) => {
                    proof {
                        assert(f0.contains_key(vpn.0));
                        assert(frame.ppn.0 == f0[vpn.0]);
                        lemma_dealloc_frees(alloc@, frame.ppn.0);
                    }
                    frame_dealloc(alloc, frame.ppn);
                },
                None => {},
            }
            proof {
                assert(self.frames() =~= f0.remove(vpn.0));
            }
        }
        proof {
            let a1 = alloc@;
            if old(self).kind() == MapType::Framed && f0.contains_key(vpn.0) {
                let p = f0[vpn.0];
                assert forall|q: usize| page_table.is_table(q) implies a1.in_use(q) by {
                    assert(a0.in_use(q));
                    assert(q != p);
                }
                assert forall|q: usize| a1.is_free(q) implies mem.has_page(q) by {
                    if q != p {
                        assert(a0.is_free(q));
                    }
                }
                assert forall|v: usize| #[trigger] self.frames().contains_key(v) implies a1.in_use(self.frames()[v]) by {
                    assert(f0.contains_key(v) && v != vpn.0);
                    assert(f0[v] != p);
                }
            }
        }
        page_table.unmap(mem, vpn);
    }

    /// Maps pages `lo .. hi` as `map_one` does for each.
    fn map_range(&mut self, page_table: &mut PageTable, alloc: &mut StackFrameAllocator, mem: &mut PhysMemory, lo: usize, hi: usize)
        requires
            old(page_table).wf(*old(mem)),
            old(page_table).tables_in_use(old(alloc)@),
            alloc_ready(old(alloc)@, *old(mem)),
            lo <= hi,
            hi - lo <= 134217728,
            forall|v: usize| lo <= v < hi ==> #[trigger] mapping(*old(mem), old(page_table).root(), v) is None,
            forall|v: usize| lo <= v < hi ==> !#[trigger] old(self).frames().contains_key(v),
            old(self).frames_ok(old(page_table), old(alloc)@, *old(mem)),
            frames_for(lo as int, hi as int, old(self).frames_per_page()) <= frames_left(old(alloc)@),
        ensures
            final(page_table).wf(*final(mem)),
            final(page_table).tables_in_use(final(alloc)@),
            alloc_ready(final(alloc)@, *final(mem)),
            table_grows(old(page_table), final(page_table), old(alloc)@, final(alloc)@, *old(mem), *final(mem)),
            final(self).start() == old(self).start(),
            final(self).end() == old(self).end(),
            final(self).kind() == old(self).kind(),
            final(self).perm() == old(self).perm(),
            forall|v: usize| lo <= v < hi ==> #[trigger] mapping(*final(mem), final(page_table).root(), v)
                == Some(final(self).pte_of(v)),
            forall|v: usize| (forall|u: usize| lo <= u < hi ==> !same_slot(v, u)) ==> #[trigger] mapping(
                *final(mem), final(page_table).root(), v) == mapping(*old(mem), old(page_table).root(), v),
            forall|v: usize| #[trigger] final(self).frames().contains_key(v) <==> (old(self).frames().contains_key(v)
                || (old(self).kind() == MapType::Framed && lo <= v < hi)),
            forall|v: usize| #[trigger] old(self).frames().contains_key(v) ==> final(self).frames()[v] == old(self).frames()[v],
            forall|v: usize| old(self).kind() == MapType::Framed && lo <= v < hi ==> {
                &&& old(alloc)@.is_free(#[trigger] final(self).frames()[v])
                &&& final(mem).page(final(self).frames()[v]) == zero_page()
            },
            final(self).frames_ok(final(page_table), final(alloc)@, *final(mem)),
            frames_left(final(alloc)@) >= frames_left(old(alloc)@) - frames_for(lo as int, hi as int, old(self).frames_per_page()),
            forall|q: usize| old(mem).has_page(q) && !final(page_table).is_table(q) && !old(alloc)@.is_free(q)
                ==> #[trigger] final(mem).page(q) == old(mem).page(q),
            lo == hi ==> (final(alloc)@ == old(alloc)@ && *final(mem) == *old(mem) && *final(page_table) == *old(page_table)
                && *final(self) == *old(self)),
    {
        let ghost m0 = *mem;
        let ghost a0 = alloc@;
        let ghost pt0 = *page_table;
        let ghost s0 = *self;
        let start = lo;
        let end = hi;
        let mut k = start;
        while k < end
            invariant
                start == lo,
                end == hi,
                start <= k <= end,
                k == start ==> (alloc@ == a0 && *mem == m0 && *page_table == pt0 && *self == s0),
                end - start <= 134217728,
                page_table.wf(*mem),
                page_table.tables_in_use(alloc@),
                alloc_ready(alloc@, *mem),
                table_grows(&pt0, page_table, a0, alloc@, m0, *mem),
                self.start() == s0.start(),
                self.end() == s0.end(),
                self.kind() == s0.kind(),
                self.perm() == s0.perm(),
                forall|v: usize| start <= v < k ==> #[trigger] mapping(*mem, page_table.root(), v) == Some(self.pte_of(v)),
                forall|v: usize| k <= v < end ==> #[trigger] mapping(*mem, page_table.root(), v) is None,
                forall|v: usize| (forall|u: usize| start <= u < k ==> !same_slot(v, u)) ==> #[trigger] mapping(
                    *mem, page_table.root(), v) == mapping(m0, pt0.root(), v),
                forall|v: usize| #[trigger] self.frames().contains_key(v) <==> (s0.frames().contains_key(v)
                    || (s0.kind() == MapType::Framed && start <= v < k)),
                forall|v: usize| #[trigger] s0.frames().contains_key(v) ==> self.frames()[v] == s0.frames()[v],
                forall|v: usize| lo <= v < hi ==> !#[trigger] s0.frames().contains_key(v),
                forall|v: usize| s0.kind() == MapType::Framed && start <= v < k ==> {
                    &&& a0.is_free(#[trigger] self.frames()[v])
                    &&& mem.page(self.frames()[v]) == zero_page()
                },
                self.frames_ok(page_table, alloc@, *mem),
                frames_left(alloc@) + frames_for(start as int, k as int, s0.frames_per_page()) >= frames_left(a0),
                frames_left(a0) >= frames_for(start as int, end as int, s0.frames_per_page()),
                forall|q: usize| m0.has_page(q) && !page_table.is_table(q) && !a0.is_free(q)
                    ==> #[trigger] mem.page(q) == m0.page(q),
            decreases end - k,
        {
            let ghost m1 = *mem;
            let ghost a1 = alloc@;
            let ghost pt1 = *page_table;
            let ghost s1 = *self;
            proof {
                page_table.lemma_wf_facts(*mem);
                assert(0 <= frames_needed(*mem, page_table.root(), k) <= 2);
                assert(!s0.frames().contains_key(k));
                lemma_frames_for_step(start, k, end, s0.frames_per_page());
                if k != start && k % 512 != 0 {
                    let j = (k - 1) as usize;
                    lemma_same_block(k);
                    assert(mapping(*mem, page_table.root(), j) is Some);
                    assert(frames_needed(*mem, page_table.root(), k) == 0);
                }
            }
            self.map_one(page_table, alloc, mem, VirtPageNum(k));
            proof {
                let r = page_table.root();
                assert forall|v: usize| start <= v < k + 1 implies #[trigger] mapping(*mem, r, v) == Some(self.pte_of(v)) by {
                    if v < k {
                        lemma_near_pages_distinct_slots(v, k);
                        assert(mapping(*mem, r, v) == mapping(m1, r, v));
                        if s0.kind() == MapType::Framed {
                            assert(s1.frames().contains_key(v));
                        }
                        assert(self.pte_of(v) == s1.pte_of(v));
                    }
                }
                assert forall|v: usize| k + 1 <= v < end implies #[trigger] mapping(*mem, r, v) is None by {
                    lemma_near_pages_distinct_slots(k, v);
                    assert(mapping(*mem, r, v) == mapping(m1, r, v));
                }
                assert forall|v: usize| (forall|u: usize| start <= u < k + 1 ==> !same_slot(v, u)) implies #[trigger] mapping(
                    *mem, r, v) == mapping(m0, pt0.root(), v) by {
                    assert(!same_slot(v, k));
                    assert(mapping(*mem, r, v) == mapping(m1, r, v));
                    assert forall|u: usize| start <= u < k implies !same_slot(v, u) by {
                        assert(start <= u < k + 1);
                    }
                }
                if s0.kind() == MapType::Framed {
                    let p = self.frames()[k];
                    assert forall|v: usize| #[trigger] self.frames().contains_key(v) implies {
                        &&& alloc@.in_use(self.frames()[v])
                        &&& !page_table.is_table(self.frames()[v])
                        &&& mem.has_page(self.frames()[v])
                    } by {
                        if v != k {
                            assert(s1.frames().contains_key(v));
                            assert(a1.in_use(self.frames()[v]));
                        }
                    }
                    assert forall|v: usize, w: usize| #[trigger] self.frames().contains_key(v) && #[trigger] self.frames().contains_key(w)
                        && v != w implies self.frames()[v] != self.frames()[w] by {
                        if v == k {
                            assert(a1.in_use(self.frames()[w]));
                        } else if w == k {
                            assert(a1.in_use(self.frames()[v]));
                        } else {
                            assert(s1.frames().contains_key(v) && s1.frames().contains_key(w));
                        }
                    }
                    assert forall|v: usize| s0.kind() == MapType::Framed && start <= v < k + 1 implies {
                        &&& a0.is_free(#[trigger] self.frames()[v])
                        &&& mem.page(self.frames()[v]) == zero_page()
                    } by {
                        if v < k {
                            assert(s1.frames().contains_key(v));
                            let q = self.frames()[v];
                            assert(a1.in_use(q));
                            assert(!page_table.is_table(q)) by {
                                if page_table.is_table(q) && !pt1.is_table(q) {
                                    assert(a1.is_free(q));
                                }
                            }
                            assert(q != p);
                        }
                    }
                    assert forall|q: usize| m0.has_page(q) && !page_table.is_table(q) && !a0.is_free(q)
                        implies #[trigger] mem.page(q) == m0.page(q) by {
                        assert(q != p);
                        assert(m1.page(q) == m0.page(q));
                    }
                    assert forall|v: usize| #[trigger] s0.frames().contains_key(v) implies self.frames()[v] == s0.frames()[v] by {
                        assert(v != k);
                    }
                } else {
                    assert forall|q: usize| m0.has_page(q) && !page_table.is_table(q) && !a0.is_free(q)
                        implies #[trigger] mem.page(q) == m0.page(q) by {
                        assert(m1.page(q) == m0.page(q));
                    }
                    assert forall|v: usize| #[trigger] self.frames().contains_key(v) implies {
                        &&& alloc@.in_use(self.frames()[v])
                        &&& !page_table.is_table(self.frames()[v])
                        &&& mem.has_page(self.frames()[v])
                    } by {
                        assert(a1.in_use(self.frames()[v]));
                    }
                }
                assert forall|p: usize| page_table.is_table(p) && !pt0.is_table(p) implies a0.is_free(p) && alloc@.in_use(p) by {
                    if pt1.is_table(p) {
                        assert(a1.in_use(p));
                    } else {
                        assert(a1.is_free(p));
                    }
                }
            }
            k = k + 1;
        }
    }
    /// Maps every page of the area, as `map_one` does for each. The pages
    /// must not be mapped and must lie less than 2^27 pages apart, and the
    /// allocator must have three frames per page.
    pub fn map(&mut self, page_table: &mut PageTable, alloc: &mut StackFrameAllocator, mem: &mut PhysMemory)
        requires
            old(page_table).wf(*old(mem)),
            old(page_table).tables_in_use(old(alloc)@),
            alloc_ready(old(alloc)@, *old(mem)),
            old(self).start() <= old(self).end(),
            old(self).end() - old(self).start() <= 134217728,
            forall|v: usize| old(self).contains(v) ==> #[trigger] mapping(*old(mem), old(page_table).root(), v) is None,
            forall|v: usize| old(self).contains(v) ==> !#[trigger] old(self).frames().contains_key(v),
            old(self).frames_ok(old(page_table), old(alloc)@, *old(mem)),
            frames_for(old(self).start() as int, old(self).end() as int, old(self).frames_per_page()) <= frames_left(old(alloc)@),
        ensures
            final(page_table).wf(*final(mem)),
            final(page_table).tables_in_use(final(alloc)@),
            alloc_ready(final(alloc)@, *final(mem)),
            table_grows(old(page_table), final(page_table), old(alloc)@, final(alloc)@, *old(mem), *final(mem)),
            final(self).start() == old(self).start(),
            final(self).end() == old(self).end(),
            final(self).kind() == old(self).kind(),
            final(self).perm() == old(self).perm(),
            forall|v: usize| final(self).contains(v) ==> #[trigger] mapping(*final(mem), final(page_table).root(), v)
                == Some(final(self).pte_of(v)),
            forall|v: usize| (forall|u: usize| old(self).contains(u) ==> !same_slot(v, u)) ==> #[trigger] mapping(
                *final(mem), final(page_table).root(), v) == mapping(*old(mem), old(page_table).root(), v),
            forall|v: usize| #[trigger] final(self).frames().contains_key(v) <==> (old(self).frames().contains_key(v)
                || (old(self).kind() == MapType::Framed && old(self).contains(v))),
            forall|v: usize| #[trigger] old(self).frames().contains_key(v) ==> final(self).frames()[v] == old(self).frames()[v],
            forall|v: usize| old(self).kind() == MapType::Framed && old(self).contains(v) ==> {
                &&& old(alloc)@.is_free(#[trigger] final(self).frames()[v])
                &&& final(mem).page(final(self).frames()[v]) == zero_page()
            },
            final(self).frames_ok(final(page_table), final(alloc)@, *final(mem)),
            frames_left(final(alloc)@) >= frames_left(old(alloc)@) - frames_for(old(self).start() as int, old(self).end() as int, old(self).frames_per_page()),
            forall|q: usize| old(mem).has_page(q) && !final(page_table).is_table(q) && !old(alloc)@.is_free(q)
                ==> #[trigger] final(mem).page(q) == old(mem).page(q),
    {
        let start = self.vpn_range.get_start().0;
        let end = self.vpn_range.get_end().0;
        self.map_range(page_table, alloc, mem, start, end);
    }


    /// Removes the mappings of all pages of the area, as `unmap_one` does for
    /// each. The pages must be mapped and lie less than 2^27 pages apart.
    pub fn unmap(&mut self, page_table: &mut PageTable, alloc: &mut StackFrameAllocator, mem: &mut PhysMemory)
        requires
            old(page_table).wf(*old(mem)),
            old(page_table).tables_in_use(old(alloc)@),
            alloc_ready(old(alloc)@, *old(mem)),
            old(self).start() <= old(self).end(),
            old(self).end() - old(self).start() <= 134217728,
            forall|v: usize| old(self).contains(v) ==> #[trigger] mapping(*old(mem), old(page_table).root(), v) is Some,
            old(self).frames_ok(old(page_table), old(alloc)@, *old(mem)),
        ensures
            *final(page_table) == *old(page_table),
            final(page_table).wf(*final(mem)),
            final(page_table).tables_in_use(final(alloc)@),
            alloc_ready(final(alloc)@, *final(mem)),
            final(self).start() == old(self).start(),
            final(self).end() == old(self).end(),
            final(self).kind() == old(self).kind(),
            final(self).perm() == old(self).perm(),
            forall|v: usize| old(self).contains(v) ==> #[trigger] mapping(*final(mem), final(page_table).root(), v) is None,
            forall|v: usize| (forall|u: usize| old(self).contains(u) ==> !same_slot(v, u)) ==> #[trigger] mapping(
                *final(mem), final(page_table).root(), v) == mapping(*old(mem), old(page_table).root(), v),
            forall|v: usize| #[trigger] final(self).frames().contains_key(v) <==> (old(self).frames().contains_key(v)
                && !(old(self).kind() == MapType::Framed && old(self).contains(v))),
            forall|v: usize| #[trigger] final(self).frames().contains_key(v) ==> final(self).frames()[v] == old(self).frames()[v],
            forall|v: usize| old(self).kind() == MapType::Framed && old(self).contains(v)
                && #[trigger] old(self).frames().contains_key(v) ==> final(alloc)@.is_free(old(self).frames()[v]),
            forall|p: usize| #[trigger] final(alloc)@.in_use(p) ==> old(alloc)@.in_use(p),
            final(self).frames_ok(final(page_table), final(alloc)@, *final(mem)),
            final(mem).base() == old(mem).base(),
            final(mem).num_pages() == old(mem).num_pages(),
            keeps_data_pages(final(page_table), *old(mem), *final(mem)),
    {
        let ghost m0 = *mem;
        let ghost a0 = alloc@;
        let ghost pt0 = *page_table;
        let ghost s0 = *self;
        let start = self.vpn_range.get_start().0;
        let end = self.vpn_range.get_end().0;
        let mut k = start;
        while k < end
            invariant
                start == s0.start(),
                end == s0.end(),
                start <= k <= end,
                end - start <= 134217728,
                *page_table == pt0,
                page_table.wf(*mem),
                page_table.tables_in_use(alloc@),
                alloc_ready(alloc@, *mem),
                mem.base() == m0.base(),
                mem.num_pages() == m0.num_pages(),
                keeps_data_pages(page_table, m0, *mem),
                self.start() == s0.start(),
                self.end() == s0.end(),
                self.kind() == s0.kind(),
                self.perm() == s0.perm(),
                forall|v: usize| start <= v < k ==> #[trigger] mapping(*mem, page_table.root(), v) is None,
                forall|v: usize| k <= v < end ==> #[trigger] mapping(*mem, page_table.root(), v) == mapping(m0, pt0.root(), v),
                forall|v: usize| (forall|u: usize| start <= u < k ==> !same_slot(v, u)) ==> #[trigger] mapping(
                    *mem, page_table.root(), v) == mapping(m0, pt0.root(), v),
                forall|v: usize| s0.contains(v) ==> #[trigger] mapping(m0, pt0.root(), v) is Some,
                forall|v: usize| #[trigger] self.frames().contains_key(v) <==> (s0.frames().contains_key(v)
                    && !(s0.kind() == MapType::Framed && start <= v < k)),
                forall|v: usize| #[trigger] self.frames().contains_key(v) ==> self.frames()[v] == s0.frames()[v],
                forall|v: usize| s0.kind() == MapType::Framed && start <= v < k && #[trigger] s0.frames().contains_key(v)
                    ==> alloc@.is_free(s0.frames()[v]),
                forall|v: usize, w: usize| #[trigger] s0.frames().contains_key(v) && #[trigger] s0.frames().contains_key(w)
                    && v != w ==> s0.frames()[v] != s0.frames()[w],
                forall|p: usize| #[trigger] alloc@.in_use(p) ==> a0.in_use(p),
                self.frames_ok(page_table, alloc@, *mem),
            decreases end - k,
        {
            let ghost m1 = *mem;
            let ghost a1 = alloc@;
            let ghost s1 = *self;
            proof {
                assert(mapping(*mem, page_table.root(), k) is Some);
            }
            self.unmap_one(page_table, alloc, mem, VirtPageNum(k));
            proof {
                let r = page_table.root();
                assert forall|v: usize| start <= v < k + 1 implies #[trigger] mapping(*mem, r, v) is None by {
                    if v < k {
                        lemma_near_pages_distinct_slots(v, k);
                        assert(mapping(*mem, r, v) == mapping(m1, r, v));
                    }
                }
                assert forall|v: usize| k + 1 <= v < end implies #[trigger] mapping(*mem, r, v) == mapping(m0, pt0.root(), v) by {
                    lemma_near_pages_distinct_slots(k, v);
                    assert(mapping(*mem, r, v) == mapping(m1, r, v));
                }
                assert forall|v: usize| (forall|u: usize| start <= u < k + 1 ==> !same_slot(v, u)) implies #[trigger] mapping(
                    *mem, r, v) == mapping(m0, pt0.root(), v) by {
                    assert(!same_slot(v, k));
                    assert(mapping(*mem, r, v) == mapping(m1, r, v));
                    assert forall|u: usize| start <= u < k implies !same_slot(v, u) by {
                        assert(start <= u < k + 1);
                    }
                }
                if s0.kind() == MapType::Framed && s1.frames().contains_key(k) {
                    let p = s1.frames()[k];
                    lemma_dealloc_frees(a1, p);
                    assert forall|q: usize| #[trigger] alloc@.in_use(q) implies a0.in_use(q) by {
                        if q != p {
                            assert(a1.in_use(q));
                        }
                    }
                    assert forall|v: usize| s0.kind() == MapType::Framed && start <= v < k + 1
                        && #[trigger] s0.frames().contains_key(v) implies alloc@.is_free(s0.frames()[v]) by {
                        if v < k {
                            assert(a1.is_free(s0.frames()[v]));
                            if a1.recycled.contains(s0.frames()[v]) {
                                let i = choose|i: int| 0 <= i < a1.recycled.len() && a1.recycled[i] == s0.frames()[v];
                                assert(alloc@.recycled[i] == s0.frames()[v]);
                            }
                        }
                    }
                } else {
                    assert forall|v: usize| s0.kind() == MapType::Framed && start <= v < k + 1
                        && #[trigger] s0.frames().contains_key(v) implies alloc@.is_free(s0.frames()[v]) by {
                        if v == k {
                            assert(s1.frames().contains_key(k));
                        }
                    }
                }
                assert(keeps_data_pages(page_table, m0, *mem)) by {
                    assert forall|q: usize| m0.has_page(q) && !page_table.is_table(q) implies mem.page(q) == m0.page(q) by {
                        assert(m1.page(q) == m0.page(q));
                    }
                }
            }
            k = k + 1;
        }
    }

    /// Copies `data` into the frames of the area, one page's worth per page
    /// from the first page on, looking each frame up through `page_table`.
    /// The area must be framed and mapped, and `data` must fit in it.
    pub fn copy_data(&mut self, page_table: &PageTable, mem: &mut PhysMemory, data: &[u8])
        requires
            old(self).kind() == MapType::Framed,
            page_table.wf(*old(mem)),
            old(self).start() < old(self).end(),
            data@.len() <= (old(self).end() - old(self).start()) * PAGE_SIZE,
            forall|v: usize| old(self).contains(v) ==> #[trigger] mapping(*old(mem), page_table.root(), v) == Some(
                old(self).pte_of(v)),
            forall|v: usize| old(self).contains(v) ==> #[trigger] old(self).frames().contains_key(v),
            old(self).frames_placed(page_table, *old(mem)),
        ensures
            *final(self) == *old(self),
            page_table.wf(*final(mem)),
            final(mem).base() == old(mem).base(),
            final(mem).num_pages() == old(mem).num_pages(),
            forall|v: usize| #[trigger] mapping(*final(mem), page_table.root(), v) == mapping(*old(mem), page_table.root(), v),
            forall|v: usize| #[trigger] frames_needed(*final(mem), page_table.root(), v) == frames_needed(*old(mem), page_table.root(), v),
            forall|v: usize| old(self).contains(v) ==> final(mem).page(#[trigger] old(self).frames()[v]) == with_prefix(
                old(mem).page(old(self).frames()[v]), chunk(data@, v - old(self).start())),
            forall|q: usize| old(mem).has_page(q) && (forall|v: usize| old(self).contains(v) ==> old(self).frames()[v] != q)
                ==> #[trigger] final(mem).page(q) == old(mem).page(q),
    {
        let ghost m0 = *mem;
        let ghost s0 = self.start();
        let ghost fr = self.frames();
        proof {
            page_table.lemma_wf_facts(*mem);
        }
        let len = data.len();
        let mut start: usize = 0;
        let mut current_vpn = self.vpn_range.get_start().0;
        loop
            invariant_except_break
                start < len || start == 0,
                forall|v: usize| current_vpn <= v < self.end() ==> mem.page(#[trigger] fr[v]) == m0.page(fr[v]),
            invariant
                *self == *old(self),
                self.kind() == MapType::Framed,
                s0 == self.start(),
                fr == self.frames(),
                len == data@.len(),
                start <= len,
                start == (current_vpn - s0) * PAGE_SIZE,
                s0 <= current_vpn < self.end(),
                data@.len() <= (self.end() - s0) * PAGE_SIZE,
                page_table.wf(m0),
                page_table.wf(*mem),
                mem.base() == m0.base(),
                mem.num_pages() == m0.num_pages(),
                forall|v: usize| #[trigger] mapping(*mem, page_table.root(), v) == mapping(m0, page_table.root(), v),
                forall|v: usize| #[trigger] frames_needed(*mem, page_table.root(), v) == frames_needed(m0, page_table.root(), v),
                forall|v: usize| self.contains(v) ==> #[trigger] mapping(m0, page_table.root(), v) == Some(self.pte_of(v)),
                forall|v: usize| self.contains(v) ==> #[trigger] fr.contains_key(v),
                self.frames_placed(page_table, m0),
                forall|v: usize| s0 <= v < current_vpn ==> mem.page(#[trigger] fr[v]) == with_prefix(m0.page(fr[v]),
                    chunk(data@, v - s0)),
                forall|q: usize| m0.has_page(q) && (forall|v: usize| self.contains(v) ==> fr[v] != q)
                    ==> #[trigger] mem.page(q) == m0.page(q),
            ensures
                forall|v: usize| self.contains(v) ==> mem.page(#[trigger] fr[v]) == with_prefix(m0.page(fr[v]),
                    chunk(data@, v - s0)),
            decreases len - start,
        {
            let ghost m1 = *mem;
            let stop = if len - start < PAGE_SIZE { len } else { start + PAGE_SIZE };
            let src = vstd::slice::slice_subrange(data, start, stop);
            proof {
                page_table.lemma_wf_facts(*mem);
                let v = current_vpn;
                let p = fr[v];
                assert(self.contains(v));
                assert(mapping(*mem, page_table.root(), v) == Some(self.pte_of(v)));
                assert(fr.contains_key(v));
                assert(m0.has_page(p));
                crate::mm::page_table::lemma_pte_roundtrip(p, self.perm() | 1u8);
                assert(src@ == chunk(data@, v - s0));
            }
            let pte = page_table.translate(mem, VirtPageNum(current_vpn)).unwrap();
            let ppn = pte.ppn();
            proof {
                let v = current_vpn;
                assert(mapping(m1, page_table.root(), v) == Some(self.pte_of(v)));
                assert(walk(m1, page_table.root(), v) == Some(self.pte_of(v)));
                assert(pte.bits == self.pte_of(v));
                assert(self.pte_of(v) == pte_bits(fr[v], self.perm() | 1u8));
                assert(ppn.0 == fr[v]);
                m1.lemma_page_len(ppn.0);
            }
            mem.write_bytes(ppn.0, 0, src);
            proof {
                let m2 = *mem;
                let v0 = current_vpn;
                let p = ppn.0;
                assert(m1.page(p) == m0.page(p));
                assert(m2.page(p) =~= with_prefix(m0.page(p), chunk(data@, v0 - s0)));
                assert(fr.contains_key(v0));
                assert(!page_table.is_table(p));
                assert forall|q: usize| page_table.is_table(q) implies m2.page(q) == m1.page(q) by {
                    assert(q != p);
                }
                page_table.lemma_other_pages(m1, m2);
                assert forall|v: usize| s0 <= v < current_vpn + 1 implies m2.page(#[trigger] fr[v]) == with_prefix(m0.page(fr[v]),
                    chunk(data@, v - s0)) by {
                    if v != v0 {
                        assert(fr.contains_key(v) && fr.contains_key(v0));
                        assert(fr[v] != p);
                    }
                }
                assert forall|v: usize| current_vpn + 1 <= v < self.end() implies m2.page(#[trigger] fr[v]) == m0.page(fr[v]) by {
                    assert(fr.contains_key(v) && fr.contains_key(v0));
                    assert(fr[v] != p);
                }
                assert forall|q: usize| m0.has_page(q) && (forall|v: usize| self.contains(v) ==> fr[v] != q)
                    implies #[trigger] m2.page(q) == m0.page(q) by {
                    assert(self.contains(v0));
                    assert(q != p);
                }
            }
            if len - start <= PAGE_SIZE {
                proof {
                    let m2 = *mem;
                    page_table.lemma_wf_facts(m0);
                    assert forall|v: usize| self.contains(v) implies m2.page(#[trigger] fr[v]) == with_prefix(m0.page(fr[v]),
                        chunk(data@, v - s0)) by {
                        if v > current_vpn {
                            assert(chunk(data@, v - s0) =~= Seq::<u8>::empty());
                            assert(fr.contains_key(v));
                            m0.lemma_page_len(fr[v]);
                            assert(with_prefix(m0.page(fr[v]), Seq::<u8>::empty()) =~= m0.page(fr[v]));
                        }
                    }
                }
                break;
            }
            start = start + PAGE_SIZE;
            current_vpn = current_vpn + 1;
        }
    }

    /// Extends the area to end at page `new_end`, mapping the pages from the
    /// old end up to it as `map_one` does for each.
    pub fn append_to(&mut self, page_table: &mut PageTable, alloc: &mut StackFrameAllocator, mem: &mut PhysMemory, new_end: VirtPageNum)
        requires
            old(page_table).wf(*old(mem)),
            old(page_table).tables_in_use(old(alloc)@),
            alloc_ready(old(alloc)@, *old(mem)),
            old(self).frames_ok(old(page_table), old(alloc)@, *old(mem)),
            old(self).start() <= old(self).end() <= new_end.0,
            new_end.0 - old(self).end() <= 134217728,
            forall|v: usize| old(self).end() <= v < new_end.0 ==> #[trigger] mapping(*old(mem), old(page_table).root(), v) is None,
            forall|v: usize| old(self).end() <= v < new_end.0 ==> !#[trigger] old(self).frames().contains_key(v),
            frames_for(old(self).end() as int, new_end.0 as int, old(self).frames_per_page()) <= frames_left(old(alloc)@),
        ensures
            final(page_table).wf(*final(mem)),
            final(page_table).tables_in_use(final(alloc)@),
            alloc_ready(final(alloc)@, *final(mem)),
            table_grows(old(page_table), final(page_table), old(alloc)@, final(alloc)@, *old(mem), *final(mem)),
            final(self).start() == old(self).start(),
            final(self).kind() == old(self).kind(),
            final(self).perm() == old(self).perm(),
            final(self).frames_ok(final(page_table), final(alloc)@, *final(mem)),
            forall|q: usize| old(mem).has_page(q) && !final(page_table).is_table(q) && !old(alloc)@.is_free(q)
                ==> #[trigger] final(mem).page(q) == old(mem).page(q),
            final(self).end() == new_end.0,
            forall|v: usize| old(self).end() <= v < new_end.0 ==> #[trigger] mapping(*final(mem), final(page_table).root(), v)
                == Some(final(self).pte_of(v)),
            forall|v: usize| (forall|u: usize| old(self).end() <= u < new_end.0 ==> !same_slot(v, u)) ==> #[trigger] mapping(
                *final(mem), final(page_table).root(), v) == mapping(*old(mem), old(page_table).root(), v),
            forall|v: usize| #[trigger] final(self).frames().contains_key(v) <==> (old(self).frames().contains_key(v)
                || (old(self).kind() == MapType::Framed && old(self).end() <= v < new_end.0)),
            forall|v: usize| #[trigger] old(self).frames().contains_key(v) ==> final(self).frames()[v] == old(self).frames()[v],
            forall|v: usize| old(self).kind() == MapType::Framed && old(self).end() <= v < new_end.0 ==> {
                &&& old(alloc)@.is_free(#[trigger] final(self).frames()[v])
                &&& final(mem).page(final(self).frames()[v]) == zero_page()
            },
            frames_left(final(alloc)@) >= frames_left(old(alloc)@) - frames_for(old(self).end() as int, new_end.0 as int, old(self).frames_per_page()),
    {
        let end = self.vpn_range.get_end();
        let range = VPNRange::new(end, new_end);
        self.map_range(page_table, alloc, mem, range.get_start().0, range.get_end().0);
        let ghost s1 = *self;
        self.vpn_range = VPNRange::new(self.vpn_range.get_start(), new_end);
        proof {
            assert(self.frames() == s1.frames());
        }
    }

    /// Maps the pages from `new_end` up to the end of the area as `map_one`
    /// does for each; the range of the area stays as it is.
    pub fn shrink_to(&mut self, page_table: &mut PageTable, alloc: &mut StackFrameAllocator, mem: &mut PhysMemory, new_end: VirtPageNum)
        requires
            old(page_table).wf(*old(mem)),
            old(page_table).tables_in_use(old(alloc)@),
            alloc_ready(old(alloc)@, *old(mem)),
            old(self).frames_ok(old(page_table), old(alloc)@, *old(mem)),
            new_end.0 <= old(self).end(),
            old(self).end() - new_end.0 <= 134217728,
            forall|v: usize| new_end.0 <= v < old(self).end() ==> #[trigger] mapping(*old(mem), old(page_table).root(), v) is None,
            forall|v: usize| new_end.0 <= v < old(self).end() ==> !#[trigger] old(self).frames().contains_key(v),
            frames_for(new_end.0 as int, old(self).end() as int, old(self).frames_per_page()) <= frames_left(old(alloc)@),
        ensures
            final(page_table).wf(*final(mem)),
            final(page_table).tables_in_use(final(alloc)@),
            alloc_ready(final(alloc)@, *final(mem)),
            table_grows(old(page_table), final(page_table), old(alloc)@, final(alloc)@, *old(mem), *final(mem)),
            final(self).start() == old(self).start(),
            final(self).kind() == old(self).kind(),
            final(self).perm() == old(self).perm(),
            final(self).frames_ok(final(page_table), final(alloc)@, *final(mem)),
            forall|q: usize| old(mem).has_page(q) && !final(page_table).is_table(q) && !old(alloc)@.is_free(q)
                ==> #[trigger] final(mem).page(q) == old(mem).page(q),
            final(self).end() == old(self).end(),
            forall|v: usize| new_end.0 <= v < old(self).end() ==> #[trigger] mapping(*final(mem), final(page_table).root(), v)
                == Some(final(self).pte_of(v)),
            forall|v: usize| (forall|u: usize| new_end.0 <= u < old(self).end() ==> !same_slot(v, u)) ==> #[trigger] mapping(
                *final(mem), final(page_table).root(), v) == mapping(*old(mem), old(page_table).root(), v),
            forall|v: usize| #[trigger] final(self).frames().contains_key(v) <==> (old(self).frames().contains_key(v)
                || (old(self).kind() == MapType::Framed && new_end.0 <= v < old(self).end())),
            forall|v: usize| #[trigger] old(self).frames().contains_key(v) ==> final(self).frames()[v] == old(self).frames()[v],
            forall|v: usize| old(self).kind() == MapType::Framed && new_end.0 <= v < old(self).end() ==> {
                &&& old(alloc)@.is_free(#[trigger] final(self).frames()[v])
                &&& final(mem).page(final(self).frames()[v]) == zero_page()
            },
            frames_left(final(alloc)@) >= frames_left(old(alloc)@) - frames_for(new_end.0 as int, old(self).end() as int, old(self).frames_per_page()),
            new_end.0 == old(self).end() ==> (final(alloc)@ == old(alloc)@ && *final(mem) == *old(mem)
                && *final(page_table) == *old(page_table) && *final(self) == *old(self)),
    {
        let range = VPNRange::new(new_end, self.vpn_range.get_end());
        self.map_range(page_table, alloc, mem, range.get_start().0, range.get_end().0);
    }
}

/// Area `a` is in place in table `pt`: its range is ordered and less than
/// 2^27 pages long, every page of it is mapped as the area says, a framed
/// area owns exactly one frame per page and an identical one none, and its
/// frames are placed and in use.
pub open spec fn area_placed(a: &MapArea, pt: &PageTable, mem: PhysMemory, alloc: FrameAllocatorModel) -> bool {
    &&& a.start() <= a.end()
    &&& a.end() - a.start() <= 134217728
    &&& forall|v: usize| a.contains(v) ==> #[trigger] mapping(mem, pt.root(), v) == Some(a.pte_of(v))
    &&& forall|v: usize| #[trigger] a.frames().contains_key(v) <==> (a.kind() == MapType::Framed && a.contains(v))
    &&& a.frames_ok(pt, alloc, mem)
}

/// An address space: a page table and the areas mapped through it.
pub struct MemorySet {
    page_table: PageTable,
    areas: Vec<MapArea>,
}

impl MemorySet {
    /// Root table page of the address space's page table.
    pub closed spec fn root(&self) -> usize {
        self.page_table.root()
    }

    /// The areas, in the order they were added.
    pub closed spec fn areas(&self) -> Seq<MapArea> {
        self.areas@
    }

    /// Whether page `p` is a table page of the address space's page table.
    pub closed spec fn is_table(&self, p: usize) -> bool {
        self.page_table.is_table(p)
    }

    /// The page table is well formed in `mem`.
    pub closed spec fn table_wf(&self, mem: PhysMemory) -> bool {
        self.page_table.wf(mem)
    }

    /// The page table is well formed, its table pages are in use, the
    /// allocator is ready, and every area is in place.
    pub closed spec fn wf(&self, mem: PhysMemory, alloc: FrameAllocatorModel) -> bool {
        &&& self.page_table.wf(mem)
        &&& self.page_table.tables_in_use(alloc)
        &&& alloc_ready(alloc, mem)
        &&& forall|i: int| 0 <= i < self.areas@.len() ==> area_placed(&#[trigger] self.areas@[i], &self.page_table, mem, alloc)
    }

    /// Every page of an area of a well-formed address space is mapped by the
    /// area's entry for it.
    pub proof fn lemma_area_mapping(&self, mem: PhysMemory, alloc: FrameAllocatorModel, i: int, v: usize)
        requires
            self.wf(mem, alloc),
            0 <= i < self.areas().len(),
            self.areas()[i].contains(v),
        ensures
            mapping(mem, self.root(), v) == Some(self.areas()[i].pte_of(v)),
    {
        assert(area_placed(&self.areas@[i], &self.page_table, mem, alloc));
    }

    /// A well-formed address space has a well-formed page table.
    pub proof fn lemma_wf_table(&self, mem: PhysMemory, alloc: FrameAllocatorModel)
        requires
            self.wf(mem, alloc),
        ensures
            self.table_wf(mem),
            alloc_ready(alloc, mem),
            mem.wf(),
            forall|v: usize| 0 <= #[trigger] frames_needed(mem, self.root(), v) <= 2,
    {
        self.page_table.lemma_wf_facts(mem);
    }

    /// An empty address space with a fresh root table page.
    pub fn new_bare(alloc: &mut StackFrameAllocator, mem: &mut PhysMemory) -> (ms: Self)
        requires
            alloc_ready(old(alloc)@, *old(mem)),
            frames_left(old(alloc)@) > 0,
            old(mem).wf(),
            mem_fits_ptes(*old(mem)),
        ensures
            ms.wf(*final(mem), final(alloc)@),
            ms.areas().len() == 0,
            forall|v: usize| #[trigger] mapping(*final(mem), ms.root(), v) is None,
            frames_left(final(alloc)@) == frames_left(old(alloc)@) - 1,
            final(mem).base() == old(mem).base(),
            final(mem).num_pages() == old(mem).num_pages(),
    {
        proof {
            lemma_alloc_some(alloc@);
        }
        let page_table = PageTable::new(alloc, mem);
        MemorySet { page_table, areas: Vec::new() }
    }

    /// The `satp` value that selects this address space.
    pub fn token(&self) -> (satp: usize)
        ensures
            satp == ((8u64 << 60u64) | (self.root() as u64)) as usize,
    {
        self.page_table.token()
    }

    /// Maps `map_area` (a new area whose pages are not mapped yet), copies
    /// `data` into its frames when given, and adds it to the address space.
    pub fn push(&mut self, map_area: MapArea, data: Option<&[u8]>, alloc: &mut StackFrameAllocator, mem: &mut PhysMemory)
        requires
            old(self).wf(*old(mem), old(alloc)@),
            map_area.start() <= map_area.end(),
            map_area.end() - map_area.start() <= 134217728,
            map_area.frames() == Map::<usize, usize>::empty(),
            forall|v: usize| map_area.contains(v) ==> #[trigger] mapping(*old(mem), old(self).root(), v) is None,
            frames_for(map_area.start() as int, map_area.end() as int, map_area.frames_per_page()) <= frames_left(old(alloc)@),
            data matches Some(d) ==> map_area.kind() == MapType::Framed && map_area.start() < map_area.end()
                && d@.len() <= (map_area.end() - map_area.start()) * PAGE_SIZE,
        ensures
            final(self).wf(*final(mem), final(alloc)@),
            final(self).root() == old(self).root(),
            final(self).areas().len() == old(self).areas().len() + 1,
            forall|i: int| 0 <= i < old(self).areas().len() ==> #[trigger] final(self).areas()[i] == old(self).areas()[i],
            final(self).areas().last().start() == map_area.start(),
            final(self).areas().last().end() == map_area.end(),
            final(self).areas().last().kind() == map_area.kind(),
            final(self).areas().last().perm() == map_area.perm(),
            forall|v: usize| (forall|u: usize| map_area.contains(u) ==> !same_slot(v, u)) ==> #[trigger] mapping(
                *final(mem), final(self).root(), v) == mapping(*old(mem), old(self).root(), v),
            forall|v: usize| map_area.kind() == MapType::Framed && map_area.contains(v) ==> {
                &&& old(alloc)@.is_free(#[trigger] final(self).areas().last().frames()[v])
                &&& final(mem).page(final(self).areas().last().frames()[v]) == with_prefix(zero_page(), chunk(
                    match data { Some(d) => d@, None => Seq::<u8>::empty() }, v - map_area.start()))
            },
            frames_left(final(alloc)@) >= frames_left(old(alloc)@) - frames_for(map_area.start() as int,
                map_area.end() as int, map_area.frames_per_page()),
            final(mem).base() == old(mem).base(),
            final(mem).num_pages() == old(mem).num_pages(),
            forall|q: usize| old(mem).has_page(q) && !final(self).is_table(q) && !old(alloc)@.is_free(q)
                ==> #[trigger] final(mem).page(q) == old(mem).page(q),
    {
        let ghost m0 = *mem;
        let ghost a0 = alloc@;
        let ghost pt0 = self.page_table;
        let ghost old_areas = self.areas@;
        let mut map_area = map_area;
        let ghost fresh = map_area;
        proof {
            assert(map_area.frames_ok(&self.page_table, alloc@, *mem));
        }
        map_area.map(&mut self.page_table, alloc, mem);
        let ghost m1 = *mem;
        let ghost mapped = map_area;
        proof {
            assert forall|v: usize| #[trigger] map_area.frames().contains_key(v) <==> (map_area.kind() == MapType::Framed
                && map_area.contains(v)) by {}
        }
        match data {
            Some(d) => {
                map_area.copy_data(&self.page_table, mem, d);
            },
            None => {},
        }
        proof {
            let m2 = *mem;
            let a1 = alloc@;
            let r = self.page_table.root();
            // frames of the new area
            assert forall|v: usize| map_area.kind() == MapType::Framed && map_area.contains(v) implies {
                &&& a0.is_free(#[trigger] map_area.frames()[v])
                &&& m2.page(map_area.frames()[v]) == with_prefix(zero_page(), chunk(
                    match data { Some(d) => d@, None => Seq::<u8>::empty() }, v - map_area.start()))
            } by {
                assert(m1.page(map_area.frames()[v]) == zero_page());
                match data {
                    Some(d) => {},
                    None => {
                        assert(chunk(Seq::<u8>::empty(), v - map_area.start()) =~= Seq::<u8>::empty());
                        assert(with_prefix(zero_page(), Seq::<u8>::empty()) =~= zero_page());
                    },
                }
            }
            assert forall|v: usize| #[trigger] mapping(m2, r, v) == mapping(m1, r, v) by {}
            // old areas stay in place
            assert forall|i: int| 0 <= i < old_areas.len() implies area_placed(&#[trigger] old_areas[i], &self.page_table, m2, a1) by {
                let b = old_areas[i];
                assert(area_placed(&b, &pt0, m0, a0));
                assert forall|v: usize| b.contains(v) implies #[trigger] mapping(m2, r, v) == Some(b.pte_of(v)) by {
                    assert(mapping(m0, r, v) == Some(b.pte_of(v)));
                    assert forall|u: usize| fresh.contains(u) implies !same_slot(v, u) by {
                        if same_slot(v, u) {
                            crate::mm::page_table::lemma_same_slot_mapping(m0, r, v, u);
                            assert(mapping(m0, r, u) is None);
                        }
                    }
                    assert(mapping(m1, r, v) == mapping(m0, r, v));
                }
                assert forall|v: usize| #[trigger] b.frames().contains_key(v) implies {
                    &&& !self.page_table.is_table(b.frames()[v])
                    &&& m2.has_page(b.frames()[v])
                    &&& a1.in_use(b.frames()[v])
                } by {
                    let p = b.frames()[v];
                    assert(a0.in_use(p));
                    if self.page_table.is_table(p) && !pt0.is_table(p) {
                        assert(a0.is_free(p));
                    }
                }
            }
            assert forall|q: usize| m0.has_page(q) && !self.page_table.is_table(q) && !a0.is_free(q)
                implies #[trigger] m2.page(q) == m0.page(q) by {
                assert(m1.page(q) == m0.page(q));
                match data {
                    Some(d) => {
                        assert forall|v: usize| map_area.contains(v) implies map_area.frames()[v] != q by {
                            assert(a0.is_free(map_area.frames()[v]));
                        }
                    },
                    None => {},
                }
            }
        }
        self.areas.push(map_area);
        proof {
            let m2 = *mem;
            let a1 = alloc@;
            assert forall|i: int| 0 <= i < self.areas@.len() implies area_placed(&#[trigger] self.areas@[i], &self.page_table, m2, a1) by {
                if i < old_areas.len() {
                    assert(self.areas@[i] == old_areas[i]);
                }
            }
        }
    }

    /// Adds a framed area for the pages that cover `[start_va, end_va)`,
    /// with permissions `permission` and zeroed frames.
    pub fn insert_framed_area(
        &mut self,
        start_va: VirtAddr,
        end_va: VirtAddr,
        permission: MapPermission,
        alloc: &mut StackFrameAllocator,
        mem: &mut PhysMemory,
    )
        requires
            old(self).wf(*old(mem), old(alloc)@),
            ceil_fits(end_va.0),
            start_va.0 / PAGE_SIZE <= ceil_page(end_va.0 as int),
            ceil_page(end_va.0 as int) - start_va.0 / PAGE_SIZE <= 134217728,
            forall|v: usize| start_va.0 / PAGE_SIZE <= v < ceil_page(end_va.0 as int) ==> #[trigger] mapping(
                *old(mem), old(self).root(), v) is None,
            frames_for((start_va.0 / PAGE_SIZE) as int, ceil_page(end_va.0 as int), 1) <= frames_left(old(alloc)@),
        ensures
            final(self).wf(*final(mem), final(alloc)@),
            final(self).root() == old(self).root(),
            final(self).areas().len() == old(self).areas().len() + 1,
            forall|i: int| 0 <= i < old(self).areas().len() ==> #[trigger] final(self).areas()[i] == old(self).areas()[i],
            final(self).areas().last().start() == start_va.0 / PAGE_SIZE,
            final(self).areas().last().end() == ceil_page(end_va.0 as int),
            final(self).areas().last().kind() == MapType::Framed,
            final(self).areas().last().perm() == permission.bits,
            forall|v: usize| final(self).areas().last().contains(v) ==> final(mem).page(
                #[trigger] final(self).areas().last().frames()[v]) == zero_page(),
            forall|v: usize| (forall|u: usize| start_va.0 / PAGE_SIZE <= u < ceil_page(end_va.0 as int) ==> !same_slot(v, u))
                ==> #[trigger] mapping(*final(mem), final(self).root(), v) == mapping(*old(mem), old(self).root(), v),
            frames_left(final(alloc)@) >= frames_left(old(alloc)@) - frames_for((start_va.0 / PAGE_SIZE) as int,
                ceil_page(end_va.0 as int), 1),
            final(mem).base() == old(mem).base(),
            final(mem).num_pages() == old(mem).num_pages(),
    {
        let area = MapArea::new(start_va, end_va, MapType::Framed, permission);
        self.push(area, None, alloc, mem);
        proof {
            let a = self.areas@.last();
            assert forall|v: usize| a.contains(v) implies mem.page(#[trigger] a.frames()[v]) == zero_page() by {
                assert(chunk(Seq::<u8>::empty(), v - a.start()) =~= Seq::<u8>::empty());
                assert(with_prefix(zero_page(), Seq::<u8>::empty()) =~= zero_page());
            }
        }
    }

    /// The leaf entry for page `vpn`, or `None` when an upper-level entry on
    /// the way is not valid.
    pub fn translate(&self, mem: &PhysMemory, vpn: VirtPageNum) -> (pte: Option<PageTableEntry>)
        requires
            self.table_wf(*mem),
        ensures
            match walk(*mem, self.root(), vpn.0) {
                Some(e) => pte matches Some(p) && p.bits == e,
                None => pte is None,
            },
            mapping(*mem, self.root(), vpn.0) matches Some(e) ==> pte matches Some(p) && p.bits == e,
    {
        proof {
            self.page_table.lemma_wf_facts(*mem);
        }
        self.page_table.translate(mem, vpn)
    }
}

/// The low 39 bits of an address, as `VirtAddr::from` keeps them.
pub open spec fn va_bits(x: usize) -> usize {
    ((x as u64) & 0x7f_ffff_ffffu64) as usize
}

/// The page that the trampoline occupies at the top of every address space.
pub open spec fn trampoline_vpn() -> usize {
    va_bits(TRAMPOLINE) / PAGE_SIZE
}

impl MemorySet {
    /// Maps the trampoline page at the top of the address space onto the
    /// page-aligned physical address `strampoline`, readable and executable.
    fn map_trampoline(&mut self, strampoline: usize, alloc: &mut StackFrameAllocator, mem: &mut PhysMemory)
        requires
            old(self).wf(*old(mem), old(alloc)@),
            strampoline % PAGE_SIZE == 0,
            mapping(*old(mem), old(self).root(), trampoline_vpn()) is None,
            frames_needed(*old(mem), old(self).root(), trampoline_vpn()) <= frames_left(old(alloc)@),
        ensures
            final(self).wf(*final(mem), final(alloc)@),
            final(self).root() == old(self).root(),
            final(self).areas() == old(self).areas(),
            remapped(*old(mem), *final(mem), final(self).root(), trampoline_vpn(), Some(pte_bits(
                (((strampoline as u64) & 0xff_ffff_ffff_ffffu64) as usize) / PAGE_SIZE, 10u8 | 1u8))),
            frames_left(final(alloc)@) == frames_left(old(alloc)@) - frames_needed(*old(mem), old(self).root(), trampoline_vpn()),
            final(mem).base() == old(mem).base(),
            final(mem).num_pages() == old(mem).num_pages(),
            keeps_data_pages(&final(self).page_table, *old(mem), *final(mem)),
    {
        let ghost m0 = *mem;
        let ghost a0 = alloc@;
        let ghost pt0 = self.page_table;
        let vpn = VirtAddr::from(TRAMPOLINE).floor();
        let ppn = PhysAddr::from(strampoline).floor();
        self.page_table.map(alloc, mem, vpn, ppn, PTEFlags { bits: PTEFlags::R | PTEFlags::X });
        proof {
            let r = self.page_table.root();
            assert(PTEFlags::R | PTEFlags::X == 10u8) by (bit_vector);
            assert forall|i: int| 0 <= i < self.areas@.len() implies area_placed(&#[trigger] self.areas@[i], &self.page_table, *mem, alloc@) by {
                let b = self.areas@[i];
                assert(area_placed(&b, &pt0, m0, a0));
                assert forall|v: usize| b.contains(v) implies #[trigger] mapping(*mem, r, v) == Some(b.pte_of(v)) by {
                    assert(mapping(m0, r, v) == Some(b.pte_of(v)));
                    if same_slot(v, trampoline_vpn()) {
                        crate::mm::page_table::lemma_same_slot_mapping(m0, r, v, trampoline_vpn());
                    }
                }
                assert forall|v: usize| #[trigger] b.frames().contains_key(v) implies {
                    &&& !self.page_table.is_table(b.frames()[v])
                    &&& mem.has_page(b.frames()[v])
                    &&& alloc@.in_use(b.frames()[v])
                } by {
                    let p = b.frames()[v];
                    assert(a0.in_use(p));
                    if self.page_table.is_table(p) && !pt0.is_table(p) {
                        assert(a0.is_free(p));
                    }
                }
            }
        }
    }

    /// Index of the first area that starts at page `start_vpn`.
    fn find_area(&self, start_vpn: usize) -> (r: Option<usize>)
        ensures
            match r {
                Some(i) => i < self.areas().len() && self.areas()[i as int].start() == start_vpn
                    && forall|j: int| 0 <= j < i ==> #[trigger] self.areas()[j].start() != start_vpn,
                None => forall|j: int| 0 <= j < self.areas().len() ==> #[trigger] self.areas()[j].start() != start_vpn,
            },
    {
        let mut i: usize = 0;
        while i < self.areas.len()
            invariant
                i <= self.areas@.len(),
                forall|j: int| 0 <= j < i ==> #[trigger] self.areas@[j].start() != start_vpn,
            decreases self.areas@.len() - i,
        {
            if self.areas[i].vpn_range.get_start().0 == start_vpn {
                return Some(i);
            }
            i = i + 1;
        }
        None
    }

    /// Finds the first area that starts at the page of `start` and maps the
    /// pages from the page after `new_end` up to its end, as the area's
    /// `shrink_to` does; returns whether there was such an area. Those pages
    /// must be unmapped, so only an area that already ends there is found
    /// without failing.
    pub fn shrink_to(&mut self, start: VirtAddr, new_end: VirtAddr, alloc: &mut StackFrameAllocator, mem: &mut PhysMemory) -> (found: bool)
        requires
            old(self).wf(*old(mem), old(alloc)@),
            ceil_fits(new_end.0),
            forall|i: int| 0 <= i < old(self).areas().len() && old(self).areas()[i].start() == start.0 / PAGE_SIZE
                && (forall|j: int| 0 <= j < i ==> #[trigger] old(self).areas()[j].start() != start.0 / PAGE_SIZE)
                ==> #[trigger] old(self).areas()[i].end() == ceil_page(new_end.0 as int),
        ensures
            found == exists|i: int| 0 <= i < old(self).areas().len() && #[trigger] old(self).areas()[i].start()
                == start.0 / PAGE_SIZE,
            final(self).wf(*final(mem), final(alloc)@),
            final(self).root() == old(self).root(),
            final(self).areas().len() == old(self).areas().len(),
            final(self).areas() == old(self).areas(),
            *final(mem) == *old(mem),
            final(alloc)@ == old(alloc)@,
    {
        let ghost m0 = *mem;
        let ghost a0 = alloc@;
        let vpn = start.floor();
        match self.find_area(vpn.0) {
            Some(i) => {
                let new_vpn = new_end.ceil();
                let ghost b = self.areas@[i as int];
                proof {
                    assert(area_placed(&b, &self.page_table, m0, a0));
                    assert(b.end() == new_vpn.0);
                    assert(frames_for(new_vpn.0 as int, b.end() as int, b.frames_per_page()) == 0);
                }
                let mut area = self.areas.remove(i);
                area.shrink_to(&mut self.page_table, alloc, mem, new_vpn);
                self.areas.insert(i, area);
                proof {
                    assert(self.areas@ =~= old(self).areas@);
                }
                true
            },
            None => false,
        }
    }
}

impl MemorySet {
    /// Finds the first area that starts at the page of `start` and extends it
    /// to end at the page boundary at or above `new_end`, mapping the new
    /// pages as the area's `append_to` does; returns whether there was such an
    /// area.
    pub fn append_to(&mut self, start: VirtAddr, new_end: VirtAddr, alloc: &mut StackFrameAllocator, mem: &mut PhysMemory) -> (found: bool)
        requires
            old(self).wf(*old(mem), old(alloc)@),
            ceil_fits(new_end.0),
            forall|i: int| 0 <= i < old(self).areas().len() && old(self).areas()[i].start() == start.0 / PAGE_SIZE
                && (forall|j: int| 0 <= j < i ==> #[trigger] old(self).areas()[j].start() != start.0 / PAGE_SIZE)
                ==> {
                    let b = #[trigger] old(self).areas()[i];
                    &&& b.end() <= ceil_page(new_end.0 as int)
                    &&& ceil_page(new_end.0 as int) - b.start() <= 134217728
                    &&& forall|v: usize| b.end() <= v < ceil_page(new_end.0 as int) ==> #[trigger] mapping(
                        *old(mem), old(self).root(), v) is None
                    &&& frames_for(b.end() as int, ceil_page(new_end.0 as int), b.frames_per_page()) <= frames_left(old(alloc)@)
                },
        ensures
            found == exists|i: int| 0 <= i < old(self).areas().len() && #[trigger] old(self).areas()[i].start()
                == start.0 / PAGE_SIZE,
            final(self).wf(*final(mem), final(alloc)@),
            final(self).root() == old(self).root(),
            final(self).areas().len() == old(self).areas().len(),
            !found ==> (*final(mem) == *old(mem) && final(alloc)@ == old(alloc)@ && final(self).areas() == old(self).areas()),
            forall|i: int| 0 <= i < old(self).areas().len() && old(self).areas()[i].start() == start.0 / PAGE_SIZE
                && (forall|j: int| 0 <= j < i ==> #[trigger] old(self).areas()[j].start() != start.0 / PAGE_SIZE)
                ==> {
                    let b = #[trigger] old(self).areas()[i];
                    let c = final(self).areas()[i];
                    &&& c.start() == b.start()
                    &&& c.end() == ceil_page(new_end.0 as int)
                    &&& c.kind() == b.kind()
                    &&& c.perm() == b.perm()
                    &&& forall|j: int| 0 <= j < old(self).areas().len() && j != i ==> #[trigger] final(self).areas()[j]
                        == old(self).areas()[j]
                    &&& forall|v: usize| (forall|u: usize| b.end() <= u < ceil_page(new_end.0 as int) ==> !same_slot(v, u))
                        ==> #[trigger] mapping(*final(mem), final(self).root(), v) == mapping(*old(mem), old(self).root(), v)
                    &&& frames_left(final(alloc)@) >= frames_left(old(alloc)@) - frames_for(b.end() as int,
                        ceil_page(new_end.0 as int), b.frames_per_page())
                },
    {
        let ghost m0 = *mem;
        let ghost a0 = alloc@;
        let ghost pt0 = self.page_table;
        let ghost old_areas = self.areas@;
        let vpn = start.floor();
        match self.find_area(vpn.0) {
            Some(i) => {
                let new_vpn = new_end.ceil();
                let ghost b = self.areas@[i as int];
                proof {
                    assert(area_placed(&b, &self.page_table, m0, a0));
                    assert(old_areas[i as int] == b);
                }
                let mut area = self.areas.remove(i);
                proof {
                    assert(area == b);
                    assert forall|v: usize| b.end() <= v < new_vpn.0 implies !#[trigger] area.frames().contains_key(v) by {}
                }
                area.append_to(&mut self.page_table, alloc, mem, new_vpn);
                let ghost c = area;
                proof {
                    let r = self.page_table.root();
                    let m1 = *mem;
                    let a1 = alloc@;
                    assert forall|v: usize| #[trigger] c.frames().contains_key(v) <==> (c.kind() == MapType::Framed
                        && c.contains(v)) by {}
                    assert forall|v: usize| c.contains(v) implies #[trigger] mapping(m1, r, v) == Some(c.pte_of(v)) by {
                        if v < b.end() {
                            assert(mapping(m0, r, v) == Some(b.pte_of(v)));
                            assert forall|u: usize| b.end() <= u < new_vpn.0 implies !same_slot(v, u) by {
                                if same_slot(v, u) {
                                    crate::mm::page_table::lemma_same_slot_mapping(m0, r, v, u);
                                }
                            }
                            if b.kind() == MapType::Framed {
                                assert(b.frames().contains_key(v));
                            }
                        }
                    }
                    assert(area_placed(&c, &self.page_table, m1, a1));
                    assert forall|k: int| 0 <= k < old_areas.len() && k != i implies area_placed(&#[trigger] old_areas[k],
                        &self.page_table, m1, a1) by {
                        let d = old_areas[k];
                        assert(area_placed(&d, &pt0, m0, a0));
                        assert forall|v: usize| d.contains(v) implies #[trigger] mapping(m1, r, v) == Some(d.pte_of(v)) by {
                            assert(mapping(m0, r, v) == Some(d.pte_of(v)));
                            assert forall|u: usize| b.end() <= u < new_vpn.0 implies !same_slot(v, u) by {
                                if same_slot(v, u) {
                                    crate::mm::page_table::lemma_same_slot_mapping(m0, r, v, u);
                                }
                            }
                        }
                        assert forall|v: usize| #[trigger] d.frames().contains_key(v) implies {
                            &&& !self.page_table.is_table(d.frames()[v])
                            &&& m1.has_page(d.frames()[v])
                            &&& a1.in_use(d.frames()[v])
                        } by {
                            let p = d.frames()[v];
                            assert(a0.in_use(p));
                            if self.page_table.is_table(p) && !pt0.is_table(p) {
                                assert(a0.is_free(p));
                            }
                        }
                    }
                }
                self.areas.insert(i, area);
                proof {
                    assert forall|k: int| 0 <= k < self.areas@.len() implies area_placed(&#[trigger] self.areas@[k],
                        &self.page_table, *mem, alloc@) by {
                        if k != i {
                            assert(self.areas@[k] == old_areas[k]);
                        }
                    }
                    assert forall|k: int| 0 <= k < old_areas.len() && k != i implies #[trigger] self.areas@[k] == old_areas[k] by {}
                }
                true
            },
            None => false,
        }
    }
}

/// Where the linker placed the sections of the kernel image, and the
/// physical address of the trampoline code.
#[derive(Copy, Clone)]
pub struct KernelLayout {
    pub stext: usize,
    pub etext: usize,
    pub srodata: usize,
    pub erodata: usize,
    pub sdata: usize,
    pub edata: usize,
    pub sbss_with_stack: usize,
    pub ebss: usize,
    pub ekernel: usize,
    pub strampoline: usize,
}

/// First page of the area that covers addresses from `x` on.
pub open spec fn page_lo(x: usize) -> int {
    (va_bits(x) / PAGE_SIZE) as int
}

/// One past the last page of the area that covers addresses below `x`.
pub open spec fn page_hi(x: usize) -> int {
    ceil_page(va_bits(x) as int)
}

/// The page ranges of the kernel address space's areas, in the order
/// `new_kernel` adds them: text, read-only data, data, bss with the boot
/// stack, the rest of physical memory, and the two device regions.
pub open spec fn kernel_ranges(l: KernelLayout) -> Seq<(int, int)> {
    seq![
        (page_lo(l.stext), page_hi(l.etext)),
        (page_lo(l.srodata), page_hi(l.erodata)),
        (page_lo(l.sdata), page_hi(l.edata)),
        (page_lo(l.sbss_with_stack), page_hi(l.ebss)),
        (page_lo(l.ekernel), page_hi(MEMORY_END)),
        (page_lo(MMIO[0].0), page_hi((MMIO[0].0 + MMIO[0].1) as usize)),
        (page_lo(MMIO[1].0), page_hi((MMIO[1].0 + MMIO[1].1) as usize)),
    ]
}

/// The permissions of the kernel areas, in the same order.
pub open spec fn kernel_perms() -> Seq<u8> {
    seq![10u8, 2u8, 6u8, 6u8, 6u8, 6u8, 6u8]
}

/// The sections follow each other in memory without sharing a page, above
/// the device regions, the trampoline code is page-aligned, and every
/// section end can be rounded up to a page.
pub open spec fn layout_ok(l: KernelLayout) -> bool {
    &&& ceil_fits(va_bits(l.etext))
    &&& ceil_fits(va_bits(l.erodata))
    &&& ceil_fits(va_bits(l.edata))
    &&& ceil_fits(va_bits(l.ebss))
    &&& 0x10002 <= page_lo(l.stext) <= page_hi(l.etext)
    &&& page_hi(l.etext) <= page_lo(l.srodata) <= page_hi(l.erodata)
    &&& page_hi(l.erodata) <= page_lo(l.sdata) <= page_hi(l.edata)
    &&& page_hi(l.edata) <= page_lo(l.sbss_with_stack) <= page_hi(l.ebss)
    &&& page_hi(l.ebss) <= page_lo(l.ekernel) <= page_hi(MEMORY_END)
    &&& l.strampoline % PAGE_SIZE == 0
}

/// Frames that adding the areas with page ranges `r[i..]` may take, with
/// `per_page` frames for each page besides page tables.
pub open spec fn frames_from(r: Seq<(int, int)>, i: int, per_page: int) -> int
    decreases r.len() - i,
{
    if i < 0 || i >= r.len() {
        0
    } else {
        frames_for(r[i].0, r[i].1, per_page) + frames_from(r, i + 1, per_page)
    }
}

/// Frames that building the kernel address space may take: the root table,
/// two tables for the trampoline, and the tables of every area.
pub open spec fn kernel_frames(l: KernelLayout) -> int {
    3 + frames_from(kernel_ranges(l), 0, 0)
}

/// The trampoline page lies above every page below 0x88000 and below 2^27.
proof fn lemma_trampoline_vpn()
    ensures
        0x88000 <= trampoline_vpn() < 134217728,
{
    let t = TRAMPOLINE as u64;
    let m = t & 0x7f_ffff_ffffu64;
    if usize::BITS == 64 {
        assert(usize::MAX == 0xffff_ffff_ffff_ffff);
        assert(t == 0xffff_ffff_ffff_f000u64);
        assert(m == 0x7f_ffff_f000u64) by (bit_vector)
            requires
                t == 0xffff_ffff_ffff_f000u64,
                m == t & 0x7f_ffff_ffffu64,
        ;
    } else {
        assert(usize::MAX == 0xffff_ffff);
        assert(t == 0xffff_f000u64);
        assert(m == 0xffff_f000u64) by (bit_vector)
            requires
                t == 0xffff_f000u64,
                m == t & 0x7f_ffff_ffffu64,
        ;
    }
    assert(va_bits(TRAMPOLINE) as u64 == m);
}

/// Distinct pages below 2^27 have distinct slots.
proof fn lemma_small_pages_distinct_slots(v: usize, w: usize)
    requires
        v < 134217728,
        w < 134217728,
        v != w,
    ensures
        !same_slot(v, w),
{
    if v < w {
        crate::mm::page_table::lemma_near_pages_distinct_slots(v, w);
    } else {
        crate::mm::page_table::lemma_near_pages_distinct_slots(w, v);
    }
}

impl MemorySet {
    /// Adds an identical area for the pages that cover `[start, end)` with
    /// permissions `perm`. All its pages lie below 2^27 and are unmapped.
    fn push_identical(&mut self, start: usize, end: usize, perm: u8, alloc: &mut StackFrameAllocator, mem: &mut PhysMemory)
        requires
            old(self).wf(*old(mem), old(alloc)@),
            ceil_fits(va_bits(end)),
            page_lo(start) <= page_hi(end) < 134217728,
            forall|v: usize| page_lo(start) <= v < page_hi(end) ==> #[trigger] mapping(*old(mem), old(self).root(), v) is None,
            frames_for(page_lo(start), page_hi(end), 0) <= frames_left(old(alloc)@),
        ensures
            final(self).wf(*final(mem), final(alloc)@),
            final(self).root() == old(self).root(),
            final(self).areas().len() == old(self).areas().len() + 1,
            forall|i: int| 0 <= i < old(self).areas().len() ==> #[trigger] final(self).areas()[i] == old(self).areas()[i],
            final(self).areas().last().start() == page_lo(start),
            final(self).areas().last().end() == page_hi(end),
            final(self).areas().last().kind() == MapType::Identical,
            final(self).areas().last().perm() == perm,
            forall|v: usize| v < 134217728 && !(page_lo(start) <= v < page_hi(end)) ==> #[trigger] mapping(
                *final(mem), final(self).root(), v) == mapping(*old(mem), old(self).root(), v),
            frames_left(final(alloc)@) >= frames_left(old(alloc)@) - frames_for(page_lo(start), page_hi(end), 0),
            final(mem).base() == old(mem).base(),
            final(mem).num_pages() == old(mem).num_pages(),
    {
        let s = VirtAddr::from(start);
        let e = VirtAddr::from(end);
        let area = MapArea::new(s, e, MapType::Identical, MapPermission { bits: perm });
        self.push(area, None, alloc, mem);
        proof {
            assert forall|v: usize| v < 134217728 && !(page_lo(start) <= v < page_hi(end)) implies #[trigger] mapping(
                *mem, self.root(), v) == mapping(*old(mem), old(self).root(), v) by {
                assert forall|u: usize| area.contains(u) implies !same_slot(v, u) by {
                    lemma_small_pages_distinct_slots(v, u);
                }
            }
        }
    }

    /// The kernel's address space: the trampoline, the kernel image's
    /// sections and the rest of physical memory mapped identically, and the
    /// device regions mapped identically.
    pub fn new_kernel(layout: KernelLayout, alloc: &mut StackFrameAllocator, mem: &mut PhysMemory) -> (ms: Self)
        requires
            layout_ok(layout),
            alloc_ready(old(alloc)@, *old(mem)),
            old(mem).wf(),
            mem_fits_ptes(*old(mem)),
            kernel_frames(layout) <= frames_left(old(alloc)@),
        ensures
            ms.wf(*final(mem), final(alloc)@),
            ms.areas().len() == 7,
            forall|i: int| 0 <= i < 7 ==> {
                &&& (#[trigger] ms.areas()[i]).start() == kernel_ranges(layout)[i].0
                &&& ms.areas()[i].end() == kernel_ranges(layout)[i].1
                &&& ms.areas()[i].kind() == MapType::Identical
                &&& ms.areas()[i].perm() == kernel_perms()[i]
            },
            mapping(*final(mem), ms.root(), trampoline_vpn()) == Some(pte_bits(
                (((layout.strampoline as u64) & 0xff_ffff_ffff_ffffu64) as usize) / PAGE_SIZE, 10u8 | 1u8)),
            forall|v: usize| v < 134217728 && v != trampoline_vpn()
                && (forall|i: int| 0 <= i < 7 ==> !(kernel_ranges(layout)[i].0 <= v < #[trigger] kernel_ranges(layout)[i].1))
                ==> #[trigger] mapping(*final(mem), ms.root(), v) is None,
    {
        let ghost r = kernel_ranges(layout);
        proof {
            lemma_kernel_ranges(layout);
            lemma_frames_from_nonneg(r, 0, 0);
        }
        let mut memory_set = Self::new_bare(alloc, mem);
        let ghost root = memory_set.root();
        proof {
            memory_set.lemma_wf_table(*mem, alloc@);
            lemma_trampoline_vpn();
        }
        memory_set.map_trampoline(layout.strampoline, alloc, mem);
        let ghost tpte = pte_bits((((layout.strampoline as u64) & 0xff_ffff_ffff_ffffu64) as usize) / PAGE_SIZE, 10u8 | 1u8);
        proof {
            let m = *mem;
            assert forall|v: usize| v < 134217728 && v != trampoline_vpn() implies #[trigger] mapping(m, root, v) is None by {
                lemma_small_pages_distinct_slots(v, trampoline_vpn());
            }
            assert(mapping(m, root, trampoline_vpn()) == Some(tpte));
        }
        let rw = MapPermission::R | MapPermission::W;
        let sections: [(usize, usize, u8); 7] = [
            (layout.stext, layout.etext, MapPermission::R | MapPermission::X),
            (layout.srodata, layout.erodata, MapPermission::R),
            (layout.sdata, layout.edata, rw),
            (layout.sbss_with_stack, layout.ebss, rw),
            (layout.ekernel, MEMORY_END, rw),
            (MMIO[0].0, MMIO[0].0 + MMIO[0].1, rw),
            (MMIO[1].0, MMIO[1].0 + MMIO[1].1, rw),
        ];
        proof {
            assert(MapPermission::R | MapPermission::X == 10u8 && MapPermission::R | MapPermission::W == 6u8) by (bit_vector);
            assert forall|i: int| 0 <= i < 7 implies {
                &&& page_lo((#[trigger] sections@[i]).0) == r[i].0
                &&& page_hi(sections@[i].1) == r[i].1
                &&& ceil_fits(va_bits(sections@[i].1))
                &&& sections@[i].2 == kernel_perms()[i]
            } by {
                lemma_va_small(MEMORY_END);
                lemma_va_small((MMIO[0].0 + MMIO[0].1) as usize);
                lemma_va_small((MMIO[1].0 + MMIO[1].1) as usize);
                assert(sections@[0] == (layout.stext, layout.etext, 10u8));
                assert(sections@[1] == (layout.srodata, layout.erodata, 2u8));
                assert(sections@[2] == (layout.sdata, layout.edata, 6u8));
                assert(sections@[3] == (layout.sbss_with_stack, layout.ebss, 6u8));
                assert(sections@[4] == (layout.ekernel, MEMORY_END, 6u8));
                assert(sections@[5] == (MMIO[0].0, (MMIO[0].0 + MMIO[0].1) as usize, 6u8));
                assert(sections@[6] == (MMIO[1].0, (MMIO[1].0 + MMIO[1].1) as usize, 6u8));
            }
        }
        let mut i: usize = 0;
        while i < 7
            invariant
                0 <= i <= 7,
                r == kernel_ranges(layout),
                forall|k: int| 0 <= k < 7 ==> {
                    &&& page_lo((#[trigger] sections@[k]).0) == r[k].0
                    &&& page_hi(sections@[k].1) == r[k].1
                    &&& ceil_fits(va_bits(sections@[k].1))
                    &&& sections@[k].2 == kernel_perms()[k]
                },
                forall|k: int| 0 <= k < 7 ==> (#[trigger] r[k]).0 <= r[k].1 < 134217728
                    && !(r[k].0 <= trampoline_vpn() < r[k].1),
                forall|a: int, b: int| 0 <= a < 7 && 0 <= b < 7 && a != b ==> (#[trigger] r[a]).1 <= (#[trigger] r[b]).0
                    || r[b].1 <= r[a].0,
                memory_set.wf(*mem, alloc@),
                memory_set.root() == root,
                memory_set.areas().len() == i,
                forall|k: int| 0 <= k < i ==> {
                    &&& (#[trigger] memory_set.areas()[k]).start() == r[k].0
                    &&& memory_set.areas()[k].end() == r[k].1
                    &&& memory_set.areas()[k].kind() == MapType::Identical
                    &&& memory_set.areas()[k].perm() == kernel_perms()[k]
                },
                mapping(*mem, root, trampoline_vpn()) == Some(tpte),
                trampoline_vpn() < 134217728,
                forall|v: usize| v < 134217728 && v != trampoline_vpn()
                    && (forall|k: int| 0 <= k < i ==> !(r[k].0 <= v < #[trigger] r[k].1))
                    ==> #[trigger] mapping(*mem, root, v) is None,
                frames_from(r, i as int, 0) <= frames_left(alloc@),
            decreases 7 - i,
        {
            let ghost m0 = *mem;
            let (start, end, perm) = sections[i];
            proof {
                let ri = r[i as int];
                assert forall|v: usize| page_lo(start) <= v < page_hi(end) implies #[trigger] mapping(*mem, root, v) is None by {
                    assert(v != trampoline_vpn());
                    assert forall|k: int| 0 <= k < i implies !(r[k].0 <= v < #[trigger] r[k].1) by {
                        assert(r[k].1 <= ri.0 || ri.1 <= r[k].0);
                    }
                }
                assert(frames_from(r, i as int, 0) == frames_for(ri.0, ri.1, 0) + frames_from(r, i + 1, 0));
                assert(frames_from(r, i + 1, 0) >= 0) by {
                    lemma_frames_from_nonneg(r, i + 1, 0);
                }
            }
            memory_set.push_identical(start, end, perm, alloc, mem);
            proof {
                let ri = r[i as int];
                assert(mapping(*mem, root, trampoline_vpn()) == mapping(m0, root, trampoline_vpn()));
                assert forall|v: usize| v < 134217728 && v != trampoline_vpn()
                    && (forall|k: int| 0 <= k < i + 1 ==> !(r[k].0 <= v < #[trigger] r[k].1))
                    implies #[trigger] mapping(*mem, root, v) is None by {
                    assert(!(ri.0 <= v < ri.1));
                    assert(mapping(*mem, root, v) == mapping(m0, root, v));
                    assert forall|k: int| 0 <= k < i implies !(r[k].0 <= v < #[trigger] r[k].1) by {
                        assert(0 <= k < i + 1);
                    }
                }
            }
            i = i + 1;
        }
        memory_set
    }
}

/// Law: the kernel's own address space protects its image. Every page of
/// the text section is mapped readable and executable but not writable,
/// every page of the read-only data is mapped not writable, and every page
/// of the data section is mapped not executable.
pub proof fn lemma_kernel_remap(ms: &MemorySet, mem: PhysMemory, alloc: FrameAllocatorModel, layout: KernelLayout, v: usize)
    requires
        ms.wf(mem, alloc),
        ms.areas().len() == 7,
        forall|i: int| 0 <= i < 7 ==> {
            &&& (#[trigger] ms.areas()[i]).start() == kernel_ranges(layout)[i].0
            &&& ms.areas()[i].end() == kernel_ranges(layout)[i].1
            &&& ms.areas()[i].kind() == MapType::Identical
            &&& ms.areas()[i].perm() == kernel_perms()[i]
        },
    ensures
        kernel_ranges(layout)[0].0 <= v < kernel_ranges(layout)[0].1 ==> (mapping(mem, ms.root(), v) matches Some(e)
            && pte_flags(e) & PTEFlags::W == 0 && pte_flags(e) & PTEFlags::X != 0),
        kernel_ranges(layout)[1].0 <= v < kernel_ranges(layout)[1].1 ==> (mapping(mem, ms.root(), v) matches Some(e)
            && pte_flags(e) & PTEFlags::W == 0),
        kernel_ranges(layout)[2].0 <= v < kernel_ranges(layout)[2].1 ==> (mapping(mem, ms.root(), v) matches Some(e)
            && pte_flags(e) & PTEFlags::X == 0),
{
    let r = kernel_ranges(layout);
    assert forall|i: int| 0 <= i < 3 && r[i].0 <= v < r[i].1 implies mapping(mem, ms.root(), v) == Some(
        pte_bits(ms.areas()[i].ppn_of(v), kernel_perms()[i] | 1u8)) by {
        assert(ms.areas()[i].contains(v));
        ms.lemma_area_mapping(mem, alloc, i, v);
    }
    assert((10u8 | 1u8) & 4u8 == 0 && (10u8 | 1u8) & 8u8 != 0 && (2u8 | 1u8) & 4u8 == 0 && (6u8 | 1u8) & 8u8 == 0)
        by (bit_vector);
    if r[0].0 <= v < r[0].1 {
        lemma_flags_of_bits(ms.areas()[0].ppn_of(v), 10u8 | 1u8);
    }
    if r[1].0 <= v < r[1].1 {
        lemma_flags_of_bits(ms.areas()[1].ppn_of(v), 2u8 | 1u8);
    }
    if r[2].0 <= v < r[2].1 {
        lemma_flags_of_bits(ms.areas()[2].ppn_of(v), 6u8 | 1u8);
    }
}

/// The flags of an entry are the flags it was made with.
proof fn lemma_flags_of_bits(ppn: usize, flags: u8)
    ensures
        pte_flags(pte_bits(ppn, flags)) == flags,
{
    let p = ppn as u64;
    let f = flags as u64;
    assert(((((p << 10u64) | f) as usize) as u64) & 0xffu64 == f) by (bit_vector)
        requires f < 256;
}

/// Frame budgets are not negative.
proof fn lemma_frames_from_nonneg(r: Seq<(int, int)>, i: int, per_page: int)
    requires
        per_page >= 0,
    ensures
        frames_from(r, i, per_page) >= 0,
    decreases r.len() - i,
{
    if 0 <= i < r.len() {
        lemma_frames_from_nonneg(r, i + 1, per_page);
        if r[i].1 > r[i].0 {
            vstd::arithmetic::div_mod::lemma_div_is_ordered(r[i].0, r[i].1 - 1, 512);
            assert(per_page * (r[i].1 - r[i].0) >= 0) by (nonlinear_arith)
                requires
                    per_page >= 0,
                    r[i].1 > r[i].0,
            ;
        }
    }
}

/// The kernel's page ranges are ordered, below 2^27, clear of the
/// trampoline page, and pairwise disjoint.
proof fn lemma_kernel_ranges(l: KernelLayout)
    requires
        layout_ok(l),
    ensures
        forall|k: int| 0 <= k < 7 ==> (#[trigger] kernel_ranges(l)[k]).0 <= kernel_ranges(l)[k].1 < 134217728
            && !(kernel_ranges(l)[k].0 <= trampoline_vpn() < kernel_ranges(l)[k].1),
        forall|a: int, b: int| 0 <= a < 7 && 0 <= b < 7 && a != b ==> (#[trigger] kernel_ranges(l)[a]).1
            <= (#[trigger] kernel_ranges(l)[b]).0 || kernel_ranges(l)[b].1 <= kernel_ranges(l)[a].0,
        kernel_ranges(l).len() == 7,
{
    lemma_trampoline_vpn();
    lemma_va_small(MMIO[0].0);
    lemma_va_small((MMIO[0].0 + MMIO[0].1) as usize);
    lemma_va_small(MMIO[1].0);
    lemma_va_small((MMIO[1].0 + MMIO[1].1) as usize);
    lemma_va_small(MEMORY_END);
    let r = kernel_ranges(l);
    assert(r[5] == (0x100int, 0x102int));
    assert(r[6] == (0x10001int, 0x10002int));
    assert(r[4].1 == 0x88000);
}

/// `VirtAddr::from` keeps an address below 2^39.
proof fn lemma_va_small(x: usize)
    requires
        x < 0x80_0000_0000,
    ensures
        va_bits(x) == x,
{
    crate::mm::address::lemma_virt_addr_small(x);
}

/// What `from_elf` reads of an ELF file header.
#[derive(Copy, Clone, Debug)]
pub struct ElfHeader {
    /// The first four bytes of the file.
    pub magic: [u8; 4],
    /// Whether the file is of the 64-bit class.
    pub is_64: bool,
    /// Address of the first instruction.
    pub entry_point: u64,
    /// Number of program headers.
    pub ph_count: u16,
    /// Offset of the program header table in the file.
    pub ph_offset: u64,
    /// Size of one program header.
    pub ph_entry_size: u16,
}

/// What `from_elf` reads of a program header.
#[derive(Copy, Clone, Debug)]
pub struct ElfSegment {
    /// Whether the type field holds a known segment type.
    pub type_known: bool,
    /// Whether the segment is to be loaded.
    pub is_load: bool,
    pub virtual_addr: u64,
    pub mem_size: u64,
    pub offset: u64,
    pub file_size: u64,
    /// Permission flags: 1 execute, 2 write, 4 read.
    pub flags: u32,
}

/// The header fields that xmas-elf reads from the bytes `data` of an ELF
/// file.
pub uninterp spec fn elf_header_of(data: Seq<u8>) -> ElfHeader;

/// The fields that xmas-elf reads from program header `index` of the ELF
/// file with bytes `data`.
pub uninterp spec fn elf_segment_of(data: Seq<u8>, index: u16) -> ElfSegment;

/// Whether `data` starts with the ELF magic number.
pub open spec fn elf_magic_ok(data: Seq<u8>) -> bool {
    &&& data.len() >= 4
    &&& data[0] == 0x7f && data[1] == 0x45 && data[2] == 0x4c && data[3] == 0x46
}

/// Whether xmas-elf accepts the file header of `data`: the magic number and
/// a class byte of 1 (32-bit) or 2 (64-bit).
pub open spec fn elf_header_ok(data: Seq<u8>) -> bool {
    data.len() >= 16 && elf_magic_ok(data) && (data[4] == 1 || data[4] == 2)
}

/// Whether `data` is long enough for xmas-elf to read the second part of a
/// file header that it accepts.
pub open spec fn elf_header_fits(data: Seq<u8>) -> bool {
    elf_header_ok(data) ==> data.len() >= if data[4] == 2 { 64int } else { 52int }
}

/// Whether xmas-elf can read program header `index` of `data` without
/// failing: the table exists, the index is in it, an entry is at least one
/// program header long, the entry lies inside the file, and the table's
/// offset and entry size are multiples of a program header's alignment (8
/// bytes for 64-bit files, 4 for 32-bit ones), so that an entry lies as
/// aligned as the file's bytes do.
pub open spec fn program_header_fits(h: ElfHeader, data_len: int, index: int) -> bool {
    &&& index < h.ph_count
    &&& h.ph_offset > 0
    &&& h.ph_entry_size >= if h.is_64 { 56int } else { 32int }
    &&& h.ph_offset + (index + 1) * h.ph_entry_size <= data_len
    &&& (h.ph_offset as int) % (if h.is_64 { 8int } else { 4int }) == 0
    &&& (h.ph_entry_size as int) % (if h.is_64 { 8int } else { 4int }) == 0
}

/// A copy of some bytes placed at an address aligned to 8 bytes, as
/// xmas-elf needs to read ELF headers in place. `buf[start..end]` holds the
/// bytes; `start` comes from `byte_align_offset` of `buf` itself, and `buf`
/// is never grown, so the bytes stay where that offset put them.
pub struct AlignedBytes {
    buf: Vec<u8>,
    start: usize,
    end: usize,
}

impl AlignedBytes {
    /// The bytes held.
    pub closed spec fn bytes(&self) -> Seq<u8> {
        self.buf@.subrange(self.start as int, self.end as int)
    }

    /// A copy of `data` at an address aligned to 8 bytes.
    pub fn copy_of(data: &[u8]) -> (a: Self)
        requires
            data@.len() + 8 <= usize::MAX,
        ensures
            a.bytes() == data@,
    {
        let len = data.len();
        let mut buf: Vec<u8> = vec![0u8; len + 8];
        let start = byte_align_offset(&buf);
        let mut i: usize = 0;
        while i < len
            invariant
                start < 8,
                len == data@.len(),
                len + 8 <= usize::MAX,
                buf@.len() == len + 8,
                i <= len,
                forall|j: int| 0 <= j < i ==> #[trigger] buf@[start + j] == data@[j],
            decreases len - i,
        {
            buf.set(start + i, data[i]);
            i = i + 1;
        }
        let a = AlignedBytes { buf, start, end: start + len };
        proof {
            assert forall|j: int| 0 <= j < len implies #[trigger] a.bytes()[j] == data@[j] by {
                assert(a.bytes()[j] == a.buf@[start + j]);
            }
            assert(a.bytes() =~= data@);
        }
        a
    }
}

/// `<*const u8>::align_offset(8)` on the start of `buf`: how many bytes
/// from its start the first address aligned to 8 bytes lies. As std
/// documents, aligning a byte pointer is always possible, so the offset is
/// below 8.
#[verifier::external_body]
fn byte_align_offset(buf: &Vec<u8>) -> (off: usize)
    ensures
        off < 8,
{
    buf.as_ptr().align_offset(8)
}

/// Reads the file header with `xmas_elf::ElfFile::new` from the aligned
/// copy `data`. As its source shows, the call succeeds exactly when the file
/// starts with the magic number and a class byte of 1 or 2, and then the
/// magic and class come from those bytes; the other fields are named by
/// `elf_header_of`. The parser asserts that the header lies at an address
/// aligned to 8 bytes, which `AlignedBytes` gives.
#[verifier::external_body]
fn elf_header(data: &AlignedBytes) -> (r: Option<ElfHeader>)
    requires
        elf_header_fits(data.bytes()),
    ensures
        (r is Some) == elf_header_ok(data.bytes()),
        r matches Some(h) ==> h == elf_header_of(data.bytes()) && h.magic@ == data.bytes().subrange(0, 4) && h.is_64 == (
        data.bytes()[4] == 2),
{
    match xmas_elf::ElfFile::new(&data.buf[data.start..data.end]) {
        Ok(elf) => Some(ElfHeader {
            magic: elf.header.pt1.magic,
            is_64: matches!(elf.header.pt2, xmas_elf::header::HeaderPt2::Header64(_)),
            entry_point: elf.header.pt2.entry_point(),
            ph_count: elf.header.pt2.ph_count(),
            ph_offset: elf.header.pt2.ph_offset(),
            ph_entry_size: elf.header.pt2.ph_entry_size(),
        }),
        Err(_) => None,
    }
}

/// Reads program header `index` with `xmas_elf::ElfFile::program_header`
/// and the header's getters, from the aligned copy `data`. Where the file
/// header is accepted and the entry fits, the source shows that the call
/// succeeds; the fields are named by `elf_segment_of`. The parser asserts
/// that the entry lies at an aligned address: `AlignedBytes` aligns the
/// file's start, and `program_header_fits` makes the entry's offset a
/// multiple of the alignment.
#[verifier::external_body]
fn elf_program_header(data: &AlignedBytes, index: u16) -> (r: Option<ElfSegment>)
    requires
        elf_header_fits(data.bytes()),
        elf_header_ok(data.bytes()),
        program_header_fits(elf_header_of(data.bytes()), data.bytes().len() as int, index as int),
    ensures
        r == Some(elf_segment_of(data.bytes(), index)),
{
    let elf = match xmas_elf::ElfFile::new(&data.buf[data.start..data.end]) { Ok(e) => e, Err(_) => return None };
    let ph = match elf.program_header(index) { Ok(p) => p, Err(_) => return None };
    Some(ElfSegment {
        type_known: ph.get_type().is_ok(),
        is_load: matches!(ph.get_type(), Ok(xmas_elf::program::Type::Load)),
        virtual_addr: ph.virtual_addr(),
        mem_size: ph.mem_size(),
        offset: ph.offset(),
        file_size: ph.file_size(),
        flags: ph.flags().0,
    })
}

/// First page of the area of segment `s`.
pub open spec fn seg_lo(s: ElfSegment) -> int {
    page_lo(s.virtual_addr as usize)
}

/// One past the last page of the area of segment `s`.
pub open spec fn seg_hi(s: ElfSegment) -> int {
    page_hi((s.virtual_addr + s.mem_size) as usize)
}

/// Permissions of the area of segment `s`: user access, and read, write and
/// execute as its flags give them.
pub open spec fn seg_perm(s: ElfSegment) -> u8 {
    ((16u8 | (if s.flags & 4 == 4 { 2u8 } else { 0u8 })) | (if s.flags & 2 == 2 { 4u8 } else { 0u8 })) | (if s.flags
        & 1 == 1 { 8u8 } else { 0u8 })
}

/// The permission bits that an ELF program header with flags `f` asks for,
/// read bit by bit.
proof fn lemma_perm_of_flags(f: u32, p: u8)
    by (bit_vector)
    requires
        p == ((16u8 | (if f & 4 == 4 { 2u8 } else { 0u8 })) | (if f & 2 == 2 { 4u8 } else { 0u8 })) | (if f
            & 1 == 1 { 8u8 } else { 0u8 }),
    ensures
        (p & 16 == 16),
        (p & 2 == 2) == (f & 4 == 4),
        (p & 4 == 4) == (f & 2 == 2),
        (p & 8 == 8) == (f & 1 == 1),
        p & 0xe1 == 0,
{
}

/// Law: a load segment's area is always user-accessible, and readable,
/// writable and executable exactly when the segment's ELF flags say so
/// (`PF_R` = 4, `PF_W` = 2, `PF_X` = 1); no bit outside U, R, W and X
/// (mask `0xe1`) is set.
pub proof fn lemma_seg_perm_follows_flags(s: ElfSegment)
    ensures
        seg_perm(s) & MapPermission::U == MapPermission::U,
        (seg_perm(s) & MapPermission::R == MapPermission::R) == (s.flags & 4 == 4),
        (seg_perm(s) & MapPermission::W == MapPermission::W) == (s.flags & 2 == 2),
        (seg_perm(s) & MapPermission::X == MapPermission::X) == (s.flags & 1 == 1),
        seg_perm(s) & 0xe1u8 == 0,
{
    lemma_perm_of_flags(s.flags, seg_perm(s));
}

/// The bytes of the file that segment `s` brings into memory.
pub open spec fn seg_data(s: ElfSegment, data: Seq<u8>) -> Seq<u8> {
    data.subrange(s.offset as int, s.offset + s.file_size)
}

/// A load segment that can be mapped on its own: its end address and file
/// range do not overflow, the file range lies inside the file, its area has
/// at least one page, and its file bytes fit in the area.
pub open spec fn seg_ok(s: ElfSegment, data_len: int) -> bool {
    &&& s.virtual_addr + s.mem_size <= u64::MAX
    &&& ceil_fits(va_bits((s.virtual_addr + s.mem_size) as usize))
    &&& seg_lo(s) < seg_hi(s)
    &&& s.offset + s.file_size <= data_len
    &&& s.file_size <= (seg_hi(s) - seg_lo(s)) * PAGE_SIZE
}

/// The load segments among the first `n` of `segs`, in order.
pub open spec fn load_segs(segs: Seq<ElfSegment>, n: int) -> Seq<ElfSegment>
    decreases n,
{
    if n <= 0 {
        Seq::empty()
    } else if segs[n - 1].is_load {
        load_segs(segs, n - 1).push(segs[n - 1])
    } else {
        load_segs(segs, n - 1)
    }
}

/// Page at which the last load segment's area ends, or 0 without one.
pub open spec fn last_load_end(loads: Seq<ElfSegment>) -> int {
    if loads.len() == 0 {
        0
    } else {
        seg_hi(loads.last())
    }
}

/// Bottom of the user stack: one guard page above the last load segment.
pub open spec fn stack_bottom(loads: Seq<ElfSegment>) -> int {
    ((last_load_end(loads) as u64) << 12u64) as usize + PAGE_SIZE
}

/// Top of the user stack.
pub open spec fn stack_top(loads: Seq<ElfSegment>) -> int {
    stack_bottom(loads) + USER_STACK_SIZE
}

/// The page ranges of the areas of a user address space, in the order
/// `from_elf` adds them: one per load segment, the user stack, an empty
/// area at the stack top, and the trap context page.
pub open spec fn elf_ranges(loads: Seq<ElfSegment>) -> Seq<(int, int)> {
    loads.map_values(|s: ElfSegment| (seg_lo(s), seg_hi(s))) + seq![
        (page_lo(stack_bottom(loads) as usize), page_hi(stack_top(loads) as usize)),
        (page_lo(stack_top(loads) as usize), page_hi(stack_top(loads) as usize)),
        (page_lo(TRAP_CONTEXT), page_hi(TRAMPOLINE)),
    ]
}

/// The permissions of those areas.
pub open spec fn elf_perm(loads: Seq<ElfSegment>, k: int) -> u8 {
    if k < loads.len() {
        seg_perm(loads[k])
    } else if k < loads.len() + 2 {
        22u8
    } else {
        6u8
    }
}

/// Nonempty ranges of `r` are pairwise disjoint and clear of the trampoline
/// page.
pub open spec fn ranges_clear(r: Seq<(int, int)>) -> bool {
    &&& forall|k: int| 0 <= k < r.len() ==> (#[trigger] r[k]).0 <= r[k].1 && !(r[k].0 <= trampoline_vpn() < r[k].1)
    &&& forall|a: int, b: int| 0 <= a < r.len() && 0 <= b < r.len() && a != b && (#[trigger] r[a]).0 < r[a].1
        && (#[trigger] r[b]).0 < r[b].1 ==> r[a].1 <= r[b].0 || r[b].1 <= r[a].0
}

/// What the ELF file must satisfy for `from_elf` to build its address space:
/// the magic number, known types for all program headers, load segments that
/// can be mapped, a stack that fits below the end of the address space, and
/// areas that do not overlap.
pub open spec fn elf_fits(h: ElfHeader, segs: Seq<ElfSegment>, data_len: int) -> bool {
    let loads = load_segs(segs, segs.len() as int);
    &&& h.magic@ == seq![0x7fu8, 0x45u8, 0x4cu8, 0x46u8]
    &&& forall|i: int| 0 <= i < segs.len() ==> (#[trigger] segs[i]).type_known
    &&& forall|i: int| 0 <= i < segs.len() && (#[trigger] segs[i]).is_load ==> seg_ok(segs[i], data_len)
    &&& stack_top(loads) <= usize::MAX
    &&& ceil_fits(va_bits(stack_top(loads) as usize))
    &&& ranges_clear(elf_ranges(loads))
}

/// The address space `ms` holds, in order, the first `j` areas that
/// `elf_ranges(loads)` lists: an area per load segment with the segment's
/// bytes at the start of its zeroed frames, then a zeroed user stack, an
/// empty area and a zeroed trap context page, all framed; the trampoline is
/// mapped; and nothing else below 2^27 is mapped.
pub open spec fn elf_space_upto(
    ms: &MemorySet,
    mem: PhysMemory,
    alloc: FrameAllocatorModel,
    loads: Seq<ElfSegment>,
    data: Seq<u8>,
    strampoline: usize,
    j: int,
) -> bool {
    let r = elf_ranges(loads);
    &&& ms.wf(mem, alloc)
    &&& ms.areas().len() == j
    &&& forall|k: int| 0 <= k < j ==> {
        &&& (#[trigger] ms.areas()[k]).start() == r[k].0
        &&& ms.areas()[k].end() == r[k].1
        &&& ms.areas()[k].kind() == MapType::Framed
        &&& ms.areas()[k].perm() == elf_perm(loads, k)
    }
    &&& forall|k: int, v: usize| 0 <= k < j && k < loads.len() && (#[trigger] ms.areas()[k]).contains(v) ==> mem.page(
        #[trigger] ms.areas()[k].frames()[v]) == with_prefix(zero_page(), chunk(seg_data(loads[k], data), v - r[k].0))
    &&& forall|k: int, v: usize| loads.len() <= k < j && (#[trigger] ms.areas()[k]).contains(v) ==> mem.page(
        #[trigger] ms.areas()[k].frames()[v]) == zero_page()
    &&& mapping(mem, ms.root(), trampoline_vpn()) == Some(pte_bits(
        (((strampoline as u64) & 0xff_ffff_ffff_ffffu64) as usize) / PAGE_SIZE, 10u8 | 1u8))
    &&& forall|v: usize| v < 134217728 && v != trampoline_vpn()
        && (forall|k: int| 0 <= k < j ==> !(r[k].0 <= v < #[trigger] r[k].1))
        ==> #[trigger] mapping(mem, ms.root(), v) is None
}

/// The whole user address space of `elf_ranges(loads)` is in place.
pub open spec fn elf_space(
    ms: &MemorySet,
    mem: PhysMemory,
    alloc: FrameAllocatorModel,
    loads: Seq<ElfSegment>,
    data: Seq<u8>,
    strampoline: usize,
) -> bool {
    elf_space_upto(ms, mem, alloc, loads, data, strampoline, elf_ranges(loads).len() as int)
}

/// The frame budget `frames_for(lo, hi, per_page)`, computed.
fn frames_for_exec(lo: usize, hi: usize, per_page: usize) -> (n: u64)
    requires
        hi <= 134217728,
        per_page <= 1,
    ensures
        n == frames_for(lo as int, hi as int, per_page as int),
{
    if hi <= lo {
        0
    } else {
        proof {
            vstd::arithmetic::div_mod::lemma_div_is_ordered(lo as int, (hi - 1) as int, 512);
            assert(per_page * (hi - lo) <= hi) by (nonlinear_arith)
                requires
                    per_page <= 1,
                    hi > lo,
            ;
        }
        let blocks = ((hi - 1) / 512 - lo / 512 + 1) as u64;
        2 * blocks + (per_page as u64) * ((hi - lo) as u64)
    }
}

/// `page_hi` of any address is at most 2^27.
proof fn lemma_page_hi_small(x: usize)
    requires
        ceil_fits(va_bits(x)),
    ensures
        page_hi(x) <= 134217728,
        page_lo(x) < 134217728,
{
    crate::mm::address::lemma_virt_addr_small(x);
}

impl MemorySet {
    /// Whether no page in `lo .. hi` is mapped.
    fn range_unmapped(&self, mem: &PhysMemory, lo: usize, hi: usize) -> (r: bool)
        requires
            self.table_wf(*mem),
        ensures
            r == forall|v: usize| lo <= v < hi ==> #[trigger] mapping(*mem, self.root(), v) is None,
    {
        let mut v = lo;
        while v < hi
            invariant
                self.table_wf(*mem),
                lo <= v,
                forall|u: usize| lo <= u < v ==> #[trigger] mapping(*mem, self.root(), u) is None,
            decreases hi - v,
        {
            let pte = self.translate(mem, VirtPageNum(v));
            proof {
                self.page_table.lemma_wf_facts(*mem);
            }
            match pte {
                Some(p) => {
                    if p.is_valid() {
                        proof {
                            assert(walk(*mem, self.root(), v) == Some(p.bits));
                            assert(mapping(*mem, self.root(), v) is Some);
                        }
                        return false;
                    }
                },
                None => {},
            }
            v = v + 1;
        }
        true
    }

    /// Adds a framed area for the pages that cover `[start, end)` with
    /// permissions `perm` and `data` at the start of its frames, when its
    /// end rounds up to a page, its range is ordered, none of its pages is
    /// mapped, the allocator has its frame budget, and `data` fits; returns
    /// whether it did.
    fn push_checked(&mut self, start: usize, end: usize, perm: u8, data: Option<&[u8]>, alloc: &mut StackFrameAllocator, mem: &mut PhysMemory) -> (ok: bool)
        requires
            old(self).wf(*old(mem), old(alloc)@),
        ensures
            ok == (ceil_fits(va_bits(end)) && page_lo(start) <= page_hi(end)
                && (forall|v: usize| page_lo(start) <= v < page_hi(end) ==> #[trigger] mapping(*old(mem), old(self).root(), v) is None)
                && frames_for(page_lo(start), page_hi(end), 1) <= frames_left(old(alloc)@)
                && (data matches Some(d) ==> page_lo(start) < page_hi(end) && d@.len() <= (page_hi(end) - page_lo(start)) * PAGE_SIZE)),
            !ok ==> (*final(self) == *old(self) && *final(mem) == *old(mem) && final(alloc)@ == old(alloc)@),
            final(self).wf(*final(mem), final(alloc)@),
            final(self).root() == old(self).root(),
            ok ==> {
                &&& final(self).areas().len() == old(self).areas().len() + 1
                &&& forall|i: int| 0 <= i < old(self).areas().len() ==> #[trigger] final(self).areas()[i] == old(self).areas()[i]
                &&& final(self).areas().last().start() == page_lo(start)
                &&& final(self).areas().last().end() == page_hi(end)
                &&& final(self).areas().last().kind() == MapType::Framed
                &&& final(self).areas().last().perm() == perm
                &&& forall|v: usize| v < 134217728 && !(page_lo(start) <= v < page_hi(end)) ==> #[trigger] mapping(
                    *final(mem), final(self).root(), v) == mapping(*old(mem), old(self).root(), v)
                &&& forall|v: usize| final(self).areas().last().contains(v) ==> final(mem).page(
                    #[trigger] final(self).areas().last().frames()[v]) == with_prefix(zero_page(), chunk(
                    match data { Some(d) => d@, None => Seq::<u8>::empty() }, v - page_lo(start)))
                &&& frames_left(final(alloc)@) >= frames_left(old(alloc)@) - frames_for(page_lo(start), page_hi(end), 1)
                &&& forall|q: usize| old(mem).has_page(q) && !final(self).is_table(q) && !old(alloc)@.is_free(q)
                    ==> #[trigger] final(mem).page(q) == old(mem).page(q)
            },
    {
        let s = VirtAddr::from(start);
        let e = VirtAddr::from(end);
        if !(e.0 == 0 || e.0 - 1 <= usize::MAX - PAGE_SIZE) {
            return false;
        }
        let lo = s.floor().0;
        let hi = e.ceil().0;
        if lo > hi {
            return false;
        }
        proof {
            lemma_page_hi_small(end);
            self.lemma_wf_table(*mem, alloc@);
        }
        if !self.range_unmapped(mem, lo, hi) {
            return false;
        }
        let need = frames_for_exec(lo, hi, 1);
        if (alloc.free_frames() as u64) < need {
            return false;
        }
        match data {
            Some(d) => {
                if lo >= hi || d.len() as u64 > ((hi - lo) as u64) * (PAGE_SIZE as u64) {
                    return false;
                }
            },
            None => {},
        }
        let area = MapArea::new(s, e, MapType::Framed, MapPermission { bits: perm });
        self.push(area, data, alloc, mem);
        proof {
            assert forall|v: usize| v < 134217728 && !(page_lo(start) <= v < page_hi(end)) implies #[trigger] mapping(
                *mem, self.root(), v) == mapping(*old(mem), old(self).root(), v) by {
                assert forall|u: usize| area.contains(u) implies !same_slot(v, u) by {
                    lemma_small_pages_distinct_slots(v, u);
                }
            }
        }
        true
    }
}

/// The load segments among the first `i` are a prefix of those among the
/// first `n`.
proof fn lemma_load_segs_prefix(segs: Seq<ElfSegment>, i: int, n: int)
    requires
        0 <= i <= n <= segs.len(),
    ensures
        load_segs(segs, i).len() <= load_segs(segs, n).len(),
        forall|k: int| 0 <= k < load_segs(segs, i).len() ==> #[trigger] load_segs(segs, i)[k] == load_segs(segs, n)[k],
    decreases n - i,
{
    if i < n {
        lemma_load_segs_prefix(segs, i, n - 1);
    }
}

/// The trap context range is one page below the trampoline page.
proof fn lemma_trap_range()
    ensures
        page_lo(TRAP_CONTEXT) + 1 == page_hi(TRAMPOLINE) == trampoline_vpn(),
        ceil_fits(va_bits(TRAMPOLINE)),
{
    lemma_trampoline_vpn();
    let t = TRAMPOLINE as u64;
    let c = TRAP_CONTEXT as u64;
    if usize::BITS == 64 {
        assert(usize::MAX == 0xffff_ffff_ffff_ffff);
        assert(t == 0xffff_ffff_ffff_f000u64 && c == 0xffff_ffff_ffff_e000u64);
        assert((t & 0x7f_ffff_ffffu64) == 0x7f_ffff_f000u64 && (c & 0x7f_ffff_ffffu64) == 0x7f_ffff_e000u64) by (bit_vector)
            requires
                t == 0xffff_ffff_ffff_f000u64,
                c == 0xffff_ffff_ffff_e000u64,
        ;
    } else {
        assert(usize::MAX == 0xffff_ffff);
        assert(t == 0xffff_f000u64 && c == 0xffff_e000u64);
        assert((t & 0x7f_ffff_ffffu64) == 0xffff_f000u64 && (c & 0x7f_ffff_ffffu64) == 0xffff_e000u64) by (bit_vector)
            requires
                t == 0xffff_f000u64,
                c == 0xffff_e000u64,
        ;
    }
    assert(va_bits(TRAMPOLINE) as u64 == t & 0x7f_ffff_ffffu64);
    assert(va_bits(TRAP_CONTEXT) as u64 == c & 0x7f_ffff_ffffu64);
}

/// The permissions of a load segment's area, computed from its flags.
fn segment_perm(seg: &ElfSegment) -> (p: u8)
    ensures
        p == seg_perm(*seg),
{
    let r_bit: u8 = if seg.flags & 4 == 4 { MapPermission::R } else { 0 };
    let w_bit: u8 = if seg.flags & 2 == 2 { MapPermission::W } else { 0 };
    let x_bit: u8 = if seg.flags & 1 == 1 { MapPermission::X } else { 0 };
    ((MapPermission::U | r_bit) | w_bit) | x_bit
}

impl MemorySet {
    /// After a push that keeps the old areas in front and leaves the pages
    /// that are neither table pages nor free frames as they were, the frames
    /// of the old areas keep their contents.
    proof fn lemma_push_keeps_frames(
        ms0: &MemorySet,
        ms1: &MemorySet,
        m0: PhysMemory,
        m1: PhysMemory,
        a0: FrameAllocatorModel,
        a1: FrameAllocatorModel,
    )
        requires
            ms0.wf(m0, a0),
            ms1.wf(m1, a1),
            ms1.areas().len() >= ms0.areas().len(),
            forall|i: int| 0 <= i < ms0.areas().len() ==> #[trigger] ms1.areas()[i] == ms0.areas()[i],
            forall|q: usize| m0.has_page(q) && !ms1.is_table(q) && !a0.is_free(q) ==> #[trigger] m1.page(q) == m0.page(q),
        ensures
            forall|k: int, v: usize| 0 <= k < ms0.areas().len() && (#[trigger] ms0.areas()[k]).contains(v)
                && ms0.areas()[k].kind() == MapType::Framed ==> m1.page(#[trigger] ms0.areas()[k].frames()[v])
                == m0.page(ms0.areas()[k].frames()[v]),
    {
        assert forall|k: int, v: usize| 0 <= k < ms0.areas().len() && (#[trigger] ms0.areas()[k]).contains(v)
            && ms0.areas()[k].kind() == MapType::Framed implies m1.page(#[trigger] ms0.areas()[k].frames()[v])
            == m0.page(ms0.areas()[k].frames()[v]) by {
            let a = ms0.areas()[k];
            assert(area_placed(&ms0.areas@[k], &ms0.page_table, m0, a0));
            assert(ms1.areas@[k] == a);
            assert(area_placed(&ms1.areas@[k], &ms1.page_table, m1, a1));
            assert(a.frames().contains_key(v));
            assert(a0.in_use(a.frames()[v]));
            assert(!ms1.is_table(a.frames()[v]));
        }
    }
}

impl MemorySet {
    /// One more area of `elf_ranges(loads)` is in place after a push that
    /// `push_checked` accepted.
    proof fn lemma_elf_step(
        ms0: &MemorySet,
        ms1: &MemorySet,
        m0: PhysMemory,
        m1: PhysMemory,
        a0: FrameAllocatorModel,
        a1: FrameAllocatorModel,
        loads: Seq<ElfSegment>,
        data: Seq<u8>,
        strampoline: usize,
        j: int,
        start: usize,
        end: usize,
        perm: u8,
        d: Seq<u8>,
    )
        requires
            elf_space_upto(ms0, m0, a0, loads, data, strampoline, j),
            0 <= j < elf_ranges(loads).len(),
            page_lo(start) == elf_ranges(loads)[j].0,
            page_hi(end) == elf_ranges(loads)[j].1,
            perm == elf_perm(loads, j),
            d == (if j < loads.len() { seg_data(loads[j], data) } else { Seq::<u8>::empty() }),
            ms1.wf(m1, a1),
            ms1.root() == ms0.root(),
            ms1.areas().len() == ms0.areas().len() + 1,
            forall|i: int| 0 <= i < ms0.areas().len() ==> #[trigger] ms1.areas()[i] == ms0.areas()[i],
            ms1.areas().last().start() == page_lo(start),
            ms1.areas().last().end() == page_hi(end),
            ms1.areas().last().kind() == MapType::Framed,
            ms1.areas().last().perm() == perm,
            forall|v: usize| v < 134217728 && !(page_lo(start) <= v < page_hi(end)) ==> #[trigger] mapping(
                m1, ms1.root(), v) == mapping(m0, ms0.root(), v),
            forall|v: usize| ms1.areas().last().contains(v) ==> m1.page(#[trigger] ms1.areas().last().frames()[v])
                == with_prefix(zero_page(), chunk(d, v - page_lo(start))),
            forall|q: usize| m0.has_page(q) && !ms1.is_table(q) && !a0.is_free(q) ==> #[trigger] m1.page(q) == m0.page(q),
            forall|v: usize| page_lo(start) <= v < page_hi(end) ==> #[trigger] mapping(m0, ms0.root(), v) is None,
        ensures
            elf_space_upto(ms1, m1, a1, loads, data, strampoline, j + 1),
    {
        let r = elf_ranges(loads);
        let root = ms0.root();
        lemma_trampoline_vpn();
        MemorySet::lemma_push_keeps_frames(ms0, ms1, m0, m1, a0, a1);
        assert(!(page_lo(start) <= trampoline_vpn() < page_hi(end)));
        assert(mapping(m1, root, trampoline_vpn()) == mapping(m0, root, trampoline_vpn()));
        assert forall|k: int| 0 <= k < j + 1 implies {
            &&& (#[trigger] ms1.areas()[k]).start() == r[k].0
            &&& ms1.areas()[k].end() == r[k].1
            &&& ms1.areas()[k].kind() == MapType::Framed
            &&& ms1.areas()[k].perm() == elf_perm(loads, k)
        } by {
            if k < j {
                assert(ms1.areas()[k] == ms0.areas()[k]);
            }
        }
        assert forall|k: int, v: usize| 0 <= k < j + 1 && k < loads.len() && (#[trigger] ms1.areas()[k]).contains(v)
            implies m1.page(#[trigger] ms1.areas()[k].frames()[v]) == with_prefix(zero_page(), chunk(seg_data(loads[k], data),
            v - r[k].0)) by {
            if k < j {
                assert(ms1.areas()[k] == ms0.areas()[k]);
            }
        }
        assert forall|k: int, v: usize| loads.len() <= k < j + 1 && (#[trigger] ms1.areas()[k]).contains(v)
            implies m1.page(#[trigger] ms1.areas()[k].frames()[v]) == zero_page() by {
            if k < j {
                assert(ms1.areas()[k] == ms0.areas()[k]);
            } else {
                assert(chunk(Seq::<u8>::empty(), v - page_lo(start)) =~= Seq::<u8>::empty());
                assert(with_prefix(zero_page(), Seq::<u8>::empty()) =~= zero_page());
            }
        }
        assert forall|v: usize| v < 134217728 && v != trampoline_vpn()
            && (forall|k: int| 0 <= k < j + 1 ==> !(r[k].0 <= v < #[trigger] r[k].1))
            implies #[trigger] mapping(m1, root, v) is None by {
            assert(!(r[j].0 <= v < r[j].1));
            assert forall|k: int| 0 <= k < j implies !(r[k].0 <= v < #[trigger] r[k].1) by {
                assert(0 <= k < j + 1);
            }
        }
    }

    /// With the areas before `j` in place and the ranges clear, the pages
    /// of range `j` are unmapped.
    proof fn lemma_elf_range_free(
        ms: &MemorySet,
        mem: PhysMemory,
        alloc: FrameAllocatorModel,
        loads: Seq<ElfSegment>,
        data: Seq<u8>,
        strampoline: usize,
        j: int,
        start: usize,
        end: usize,
    )
        requires
            elf_space_upto(ms, mem, alloc, loads, data, strampoline, j),
            ranges_clear(elf_ranges(loads)),
            0 <= j < elf_ranges(loads).len(),
            page_lo(start) == elf_ranges(loads)[j].0,
            page_hi(end) == elf_ranges(loads)[j].1,
            ceil_fits(va_bits(end)),
        ensures
            page_lo(start) <= page_hi(end),
            forall|v: usize| page_lo(start) <= v < page_hi(end) ==> #[trigger] mapping(mem, ms.root(), v) is None,
    {
        let r = elf_ranges(loads);
        lemma_page_hi_small(end);
        assert(r[j].0 <= r[j].1);
        assert forall|v: usize| page_lo(start) <= v < page_hi(end) implies #[trigger] mapping(mem, ms.root(), v) is None by {
            assert(v != trampoline_vpn());
            assert forall|k: int| 0 <= k < j implies !(r[k].0 <= v < #[trigger] r[k].1) by {
                if r[k].0 <= v < r[k].1 {
                    assert(r[k].0 < r[k].1 && r[j].0 < r[j].1);
                }
            }
        }
    }

    /// Builds a user address space from the parsed ELF file `data`: the
    /// trampoline, an area per load segment with the segment's bytes copied
    /// in, a user stack one guard page above the last load segment, an empty
    /// area at the stack top and the trap context page. Returns it with the
    /// stack top and the entry point, or `None` where the file cannot be
    /// loaded (the checks that `elf_fits` and the frame budget state).
    pub fn from_elf_parts(
        header: &ElfHeader,
        segments: &Vec<ElfSegment>,
        data: &[u8],
        strampoline: usize,
        alloc: &mut StackFrameAllocator,
        mem: &mut PhysMemory,
    ) -> (r: Option<(MemorySet, usize, usize)>)
        requires
            alloc_ready(old(alloc)@, *old(mem)),
            old(mem).wf(),
            mem_fits_ptes(*old(mem)),
            frames_left(old(alloc)@) >= 3,
            strampoline % PAGE_SIZE == 0,
        ensures
            (elf_fits(*header, segments@, data@.len() as int) && 3 + frames_from(elf_ranges(load_segs(segments@,
                segments@.len() as int)), 0, 1) <= frames_left(old(alloc)@)) ==> r is Some,
            r matches Some((ms, sp, entry)) ==> {
                &&& elf_space(&ms, *final(mem), final(alloc)@, load_segs(segments@, segments@.len() as int), data@, strampoline)
                &&& sp == stack_top(load_segs(segments@, segments@.len() as int))
                &&& entry == header.entry_point as usize
            },
    {
        let ghost segs = segments@;
        let ghost n = segs.len() as int;
        let ghost loads = load_segs(segs, n);
        let ghost rs = elf_ranges(loads);
        let ghost good = elf_fits(*header, segs, data@.len() as int) && 3 + frames_from(rs, 0, 1) <= frames_left(alloc@);
        if !(header.magic[0] == 0x7f && header.magic[1] == 0x45 && header.magic[2] == 0x4c && header.magic[3] == 0x46) {
            proof {
                if good {
                    assert(header.magic@ == seq![0x7fu8, 0x45u8, 0x4cu8, 0x46u8]);
                    assert(header.magic@[0] == 0x7f);
                }
            }
            return None;
        }
        proof {
            lemma_frames_from_nonneg(rs, 0, 1);
            lemma_trampoline_vpn();
        }
        let mut ms = MemorySet::new_bare(alloc, mem);
        proof {
            ms.lemma_wf_table(*mem, alloc@);
        }
        ms.map_trampoline(strampoline, alloc, mem);
        proof {
            let m = *mem;
            assert forall|v: usize| v < 134217728 && v != trampoline_vpn() implies #[trigger] mapping(m, ms.root(), v) is None by {
                lemma_small_pages_distinct_slots(v, trampoline_vpn());
            }
            assert(elf_space_upto(&ms, *mem, alloc@, loads, data@, strampoline, 0));
        }
        let mut max_end_vpn: usize = 0;
        let mut i: usize = 0;
        while i < segments.len()
            invariant
                segs == segments@,
                n == segs.len(),
                loads == load_segs(segs, n),
                rs == elf_ranges(loads),
                good == (elf_fits(*header, segs, data@.len() as int) && 3 + frames_from(rs, 0, 1) <= frames_left(old(alloc)@)),
                0 <= i <= n,
                load_segs(segs, i as int).len() <= loads.len(),
                forall|k: int| 0 <= k < load_segs(segs, i as int).len() ==> #[trigger] load_segs(segs, i as int)[k] == loads[k],
                elf_space_upto(&ms, *mem, alloc@, loads, data@, strampoline, load_segs(segs, i as int).len() as int),
                max_end_vpn == last_load_end(load_segs(segs, i as int)),
                good ==> frames_from(rs, load_segs(segs, i as int).len() as int, 1) <= frames_left(alloc@),
            decreases n - i,
        {
            let ghost li = load_segs(segs, i as int);
            let ghost m0 = *mem;
            let ghost a0 = alloc@;
            let ghost ms0 = ms;
            let seg = segments[i];
            proof {
                lemma_load_segs_prefix(segs, i as int + 1, n);
                assert(load_segs(segs, i + 1) == if seg.is_load { li.push(seg) } else { li });
            }
            if !seg.type_known {
                proof {
                    if good {
                        assert(segs[i as int].type_known);
                    }
                }
                return None;
            }
            if seg.is_load {
                let end64 = match seg.virtual_addr.checked_add(seg.mem_size) {
                    Some(x) => x,
                    None => {
                        proof {
                            if good {
                                assert(seg_ok(segs[i as int], data@.len() as int));
                            }
                        }
                        return None;
                    },
                };
                let off_end = match seg.offset.checked_add(seg.file_size) {
                    Some(x) => x,
                    None => {
                        proof {
                            if good {
                                assert(seg_ok(segs[i as int], data@.len() as int));
                                assert(data@.len() == data.len());
                            }
                        }
                        return None;
                    },
                };
                if off_end > data.len() as u64 {
                    proof {
                        if good {
                            assert(seg_ok(segs[i as int], data@.len() as int));
                        }
                    }
                    return None;
                }
                let start = seg.virtual_addr as usize;
                let end = end64 as usize;
                let perm = segment_perm(&seg);
                let slice = vstd::slice::slice_subrange(data, seg.offset as usize, off_end as usize);
                let ghost j = li.len() as int;
                proof {
                    assert(load_segs(segs, i + 1)[j] == loads[j]);
                    assert(loads[j] == seg);
                    assert(slice@ == seg_data(seg, data@));
                    assert(rs[j] == (seg_lo(seg), seg_hi(seg)));
                    if good {
                        assert(seg_ok(seg, data@.len() as int));
                        MemorySet::lemma_elf_range_free(&ms, *mem, alloc@, loads, data@, strampoline, j, start, end);
                        assert(frames_from(rs, j, 1) == frames_for(rs[j].0, rs[j].1, 1) + frames_from(rs, j + 1, 1));
                        lemma_frames_from_nonneg(rs, j + 1, 1);
                    }
                }
                let ok = ms.push_checked(start, end, perm, Some(slice), alloc, mem);
                if !ok {
                    return None;
                }
                max_end_vpn = VirtAddr::from(end).ceil().0;
                proof {
                    MemorySet::lemma_elf_step(&ms0, &ms, m0, *mem, a0, alloc@, loads, data@, strampoline, j, start, end, perm,
                        slice@);
                    if good {
                        assert(frames_from(rs, j, 1) == frames_for(rs[j].0, rs[j].1, 1) + frames_from(rs, j + 1, 1));
                    }
                }
            }
            i = i + 1;
        }
        proof {
            assert(load_segs(segs, n) == loads);
        }
        let max_end_va = VirtAddr::from(VirtPageNum(max_end_vpn));
        let bottom = match max_end_va.0.checked_add(PAGE_SIZE) {
            Some(b) => b,
            None => {
                return None;
            },
        };
        let top = match bottom.checked_add(USER_STACK_SIZE) {
            Some(t) => t,
            None => {
                return None;
            },
        };
        proof {
            assert(bottom == stack_bottom(loads));
            assert(top == stack_top(loads));
        }
        let user = (MapPermission::R | MapPermission::W) | MapPermission::U;
        proof {
            assert(user == 22u8) by (bit_vector)
                requires
                    user == (2u8 | 4u8) | 16u8,
            ;
            lemma_trap_range();
        }
        let tail: [(usize, usize, u8); 3] = [(bottom, top, user), (top, top, user), (TRAP_CONTEXT, TRAMPOLINE, MapPermission::R | MapPermission::W)];
        proof {
            assert(MapPermission::R | MapPermission::W == 6u8) by (bit_vector);
            assert(tail@[0] == (bottom, top, 22u8));
            assert(tail@[1] == (top, top, 22u8));
            assert(tail@[2] == (TRAP_CONTEXT, TRAMPOLINE, 6u8));
        }
        let mut t: usize = 0;
        while t < 3
            invariant
                0 <= t <= 3,
                segs == segments@,
                n == segs.len(),
                loads == load_segs(segs, n),
                rs == elf_ranges(loads),
                good == (elf_fits(*header, segs, data@.len() as int) && 3 + frames_from(rs, 0, 1) <= frames_left(old(alloc)@)),
                top == stack_top(loads),
                bottom == stack_bottom(loads),
                tail@[0] == (bottom, top, 22u8),
                tail@[1] == (top, top, 22u8),
                tail@[2] == (TRAP_CONTEXT, TRAMPOLINE, 6u8),
                elf_space_upto(&ms, *mem, alloc@, loads, data@, strampoline, loads.len() + t),
                good ==> frames_from(rs, loads.len() + t, 1) <= frames_left(alloc@),
            decreases 3 - t,
        {
            let ghost m0 = *mem;
            let ghost a0 = alloc@;
            let ghost ms0 = ms;
            let ghost j = loads.len() + t;
            let (s, e, p) = tail[t];
            proof {
                let tr = seq![
                    (page_lo(stack_bottom(loads) as usize), page_hi(stack_top(loads) as usize)),
                    (page_lo(stack_top(loads) as usize), page_hi(stack_top(loads) as usize)),
                    (page_lo(TRAP_CONTEXT), page_hi(TRAMPOLINE)),
                ];
                assert(rs == loads.map_values(|sg: ElfSegment| (seg_lo(sg), seg_hi(sg))) + tr);
                assert(rs[j] == tr[t as int]);
                assert(page_lo(s) == rs[j].0 && page_hi(e) == rs[j].1 && p == elf_perm(loads, j));
                if good {
                    assert(ceil_fits(va_bits(e))) by {
                        if t == 2 {
                            lemma_trap_range();
                        }
                    }
                    MemorySet::lemma_elf_range_free(&ms, *mem, alloc@, loads, data@, strampoline, j, s, e);
                    assert(frames_from(rs, j, 1) == frames_for(rs[j].0, rs[j].1, 1) + frames_from(rs, j + 1, 1));
                    lemma_frames_from_nonneg(rs, j + 1, 1);
                }
            }
            let ok = ms.push_checked(s, e, p, None, alloc, mem);
            if !ok {
                return None;
            }
            proof {
                MemorySet::lemma_elf_step(&ms0, &ms, m0, *mem, a0, alloc@, loads, data@, strampoline, j, s, e, p,
                    Seq::<u8>::empty());
                if good {
                    assert(frames_from(rs, j, 1) == frames_for(rs[j].0, rs[j].1, 1) + frames_from(rs, j + 1, 1));
                }
            }
            t = t + 1;
        }
        Some((ms, top, header.entry_point as usize))
    }

    /// Builds a user address space from the ELF file `elf_data` as `from_elf`
    /// does, after checking that xmas-elf can read its headers; returns
    /// `None` where it cannot.
    pub fn from_elf_checked(elf_data: &[u8], strampoline: usize, alloc: &mut StackFrameAllocator, mem: &mut PhysMemory) -> (r: Option<(
        MemorySet,
        usize,
        usize,
    )>)
        requires
            alloc_ready(old(alloc)@, *old(mem)),
            old(mem).wf(),
            mem_fits_ptes(*old(mem)),
            frames_left(old(alloc)@) >= 3,
            strampoline % PAGE_SIZE == 0,
            elf_data@.len() + 8 <= usize::MAX,
        ensures
            ({
                let h = elf_header_of(elf_data@);
                let segs = Seq::new(h.ph_count as nat, |i: int| elf_segment_of(elf_data@, i as u16));
                let loads = load_segs(segs, segs.len() as int);
                let readable = elf_header_fits(elf_data@) && elf_header_ok(elf_data@) && forall|i: int|
                    0 <= i < h.ph_count ==> program_header_fits(h, elf_data@.len() as int, i);
                &&& !readable ==> r is None
                &&& (readable && elf_fits(h, segs, elf_data@.len() as int)
                    && 3 + frames_from(elf_ranges(loads), 0, 1) <= frames_left(old(alloc)@)) ==> r is Some
                &&& r matches Some((ms, sp, entry)) ==> {
                    &&& elf_space(&ms, *final(mem), final(alloc)@, loads, elf_data@, strampoline)
                    &&& sp == stack_top(loads)
                    &&& entry == h.entry_point as usize
                }
            }),
    {
        let ghost h = elf_header_of(elf_data@);
        let len = elf_data.len();
        if !(len >= 16 && elf_data[0] == 0x7f && elf_data[1] == 0x45 && elf_data[2] == 0x4c && elf_data[3] == 0x46
            && (elf_data[4] == 1 || elf_data[4] == 2)) {
            return None;
        }
        if (elf_data[4] == 1 && len < 52) || (elf_data[4] == 2 && len < 64) {
            return None;
        }
        let aligned = AlignedBytes::copy_of(elf_data);
        let header = match elf_header(&aligned) {
            Some(hd) => hd,
            None => {
                return None;
            },
        };
        proof {
            assert(header == h);
            assert((header.ph_count as int) * (header.ph_entry_size as int) <= 65535 * 65535) by (nonlinear_arith)
                requires header.ph_count <= 65535, header.ph_entry_size <= 65535;
        }
        if header.ph_count > 0 {
            let align: u64 = if header.is_64 { 8 } else { 4 };
            let span = (header.ph_count as u64) * (header.ph_entry_size as u64);
            let fits = header.ph_offset > 0 && header.ph_entry_size as u64 >= (if header.is_64 { 56u64 } else { 32u64 })
                && header.ph_offset <= len as u64 && span <= len as u64 - header.ph_offset
                && header.ph_offset % align == 0 && header.ph_entry_size as u64 % align == 0;
            proof {
                let d = elf_data@.len() as int;
                if fits {
                    assert forall|i: int| 0 <= i < h.ph_count implies program_header_fits(h, d, i) by {
                        assert((i + 1) * (h.ph_entry_size as int) <= (h.ph_count as int) * (h.ph_entry_size as int))
                            by (nonlinear_arith)
                            requires 0 <= i < h.ph_count, h.ph_entry_size >= 0;
                    }
                } else {
                    if forall|i: int| 0 <= i < h.ph_count ==> program_header_fits(h, d, i) {
                        assert(program_header_fits(h, d, h.ph_count - 1));
                        assert(h.ph_offset + (h.ph_count as int) * h.ph_entry_size <= d);
                        assert(false);
                    }
                }
            }
            if !fits {
                return None;
            }
        }
        MemorySet::from_elf(elf_data, strampoline, alloc, mem)
    }

    /// Builds a user address space from the ELF file `elf_data`, reading its
    /// headers with xmas-elf, as `from_elf_parts` does with what is read.
    /// The headers must be readable: a file xmas-elf refuses makes the
    /// parsing fail. Returns `None` where the segments do not fit or frames
    /// may run out.
    pub fn from_elf(elf_data: &[u8], strampoline: usize, alloc: &mut StackFrameAllocator, mem: &mut PhysMemory) -> (r: Option<(
        MemorySet,
        usize,
        usize,
    )>)
        requires
            alloc_ready(old(alloc)@, *old(mem)),
            old(mem).wf(),
            mem_fits_ptes(*old(mem)),
            frames_left(old(alloc)@) >= 3,
            strampoline % PAGE_SIZE == 0,
            elf_data@.len() + 8 <= usize::MAX,
            elf_header_fits(elf_data@),
            elf_header_ok(elf_data@),
            forall|i: int| 0 <= i < elf_header_of(elf_data@).ph_count ==> program_header_fits(elf_header_of(elf_data@),
                elf_data@.len() as int, i),
        ensures
            ({
                let h = elf_header_of(elf_data@);
                let segs = Seq::new(h.ph_count as nat, |i: int| elf_segment_of(elf_data@, i as u16));
                let loads = load_segs(segs, segs.len() as int);
                &&& (elf_fits(h, segs, elf_data@.len() as int)
                    && 3 + frames_from(elf_ranges(loads), 0, 1) <= frames_left(old(alloc)@)) ==> r is Some
                &&& r matches Some((ms, sp, entry)) ==> {
                    &&& elf_space(&ms, *final(mem), final(alloc)@, loads, elf_data@, strampoline)
                    &&& sp == stack_top(loads)
                    &&& entry == h.entry_point as usize
                }
            }),
    {
        let ghost h = elf_header_of(elf_data@);
        let aligned = AlignedBytes::copy_of(elf_data);
        let header = match elf_header(&aligned) {
            Some(hd) => hd,
            None => {
                return None;
            },
        };
        proof {
            assert(header == h);
        }
        let mut segments: Vec<ElfSegment> = Vec::new();
        let mut i: u16 = 0;
        while i < header.ph_count
            invariant
                header == h,
                h == elf_header_of(elf_data@),
                aligned.bytes() == elf_data@,
                elf_header_fits(elf_data@),
                elf_header_ok(elf_data@),
                forall|k: int| 0 <= k < h.ph_count ==> program_header_fits(h, elf_data@.len() as int, k),
                i <= header.ph_count,
                segments@.len() == i,
                forall|k: int| 0 <= k < i ==> #[trigger] segments@[k] == elf_segment_of(elf_data@, k as u16),
            decreases header.ph_count - i,
        {
            proof {
                assert(program_header_fits(h, elf_data@.len() as int, i as int));
            }
            let seg = match elf_program_header(&aligned, i) {
                Some(sg) => sg,
                None => {
                    return None;
                },
            };
            segments.push(seg);
            i = i + 1;
        }
        proof {
            let segs = Seq::new(h.ph_count as nat, |k: int| elf_segment_of(elf_data@, k as u16));
            assert(segments@ =~= segs);
        }
        MemorySet::from_elf_parts(&header, &segments, elf_data, strampoline, alloc, mem)
    }
}

/// The bytes of the first `n` pages of area `a` in `mem`, one frame after
/// the other.
pub open spec fn area_image(mem: PhysMemory, a: MapArea, n: nat) -> Seq<u8>
    decreases n,
{
    if n == 0 {
        Seq::empty()
    } else {
        area_image(mem, a, (n - 1) as nat) + mem.page(a.frames()[(a.start() + n - 1) as usize])
    }
}

/// Page `j` of an area's image is the frame of its page `j`.
proof fn lemma_area_image_chunk(mem: PhysMemory, a: MapArea, n: nat, j: int)
    requires
        0 <= j < n,
        forall|k: int| 0 <= k < n ==> #[trigger] mem.page(a.frames()[(a.start() + k) as usize]).len() == PAGE_SIZE,
    ensures
        area_image(mem, a, n).len() == n * PAGE_SIZE,
        chunk(area_image(mem, a, n), j) == mem.page(a.frames()[(a.start() + j) as usize]),
    decreases n,
{
    let prev = area_image(mem, a, (n - 1) as nat);
    let last = mem.page(a.frames()[(a.start() + n - 1) as usize]);
    assert(last.len() == PAGE_SIZE);
    if n == 1 {
        assert(prev.len() == 0);
    } else if j < n - 1 {
        lemma_area_image_chunk(mem, a, (n - 1) as nat, j);
    } else {
        lemma_area_image_chunk(mem, a, (n - 1) as nat, 0);
    }
    let img = area_image(mem, a, n);
    assert(img == prev + last);
    assert(prev.len() == (n - 1) * PAGE_SIZE);
    assert(img.len() == n * PAGE_SIZE) by (nonlinear_arith)
        requires img.len() == prev.len() + PAGE_SIZE, prev.len() == (n - 1) * PAGE_SIZE;
    assert(j * PAGE_SIZE < img.len() && (j + 1) * PAGE_SIZE <= img.len()) by (nonlinear_arith)
        requires 0 <= j < n, img.len() == n * PAGE_SIZE;
    if j < n - 1 {
        assert((j + 1) * PAGE_SIZE <= prev.len()) by (nonlinear_arith)
            requires 0 <= j < n - 1, prev.len() == (n - 1) * PAGE_SIZE;
        assert(chunk(prev, j) == prev.subrange(j * PAGE_SIZE, (j + 1) * PAGE_SIZE));
        assert(img.subrange(j * PAGE_SIZE, (j + 1) * PAGE_SIZE) =~= prev.subrange(j * PAGE_SIZE, (j + 1) * PAGE_SIZE));
    } else {
        assert(j * PAGE_SIZE == prev.len());
        assert(img.subrange(j * PAGE_SIZE, (j + 1) * PAGE_SIZE) =~= last);
    }
}

/// The page ranges of `areas`, in order.
pub open spec fn area_ranges(areas: Seq<MapArea>) -> Seq<(int, int)> {
    Seq::new(areas.len(), |i: int| (areas[i].start() as int, areas[i].end() as int))
}

impl MemorySet {
    /// Copies the frames of area `i` of the address space, page by page.
    fn read_area(&self, mem: &PhysMemory, alloc: &StackFrameAllocator, i: usize) -> (bytes: Vec<u8>)
        requires
            self.wf(*mem, alloc@),
            i < self.areas().len(),
            self.areas()[i as int].kind() == MapType::Framed,
        ensures
            bytes@ == area_image(*mem, self.areas()[i as int], (self.areas()[i as int].end() - self.areas()[i as int].start()) as nat),
    {
        let ghost a = self.areas()[i as int];
        proof {
            assert(area_placed(&self.areas@[i as int], &self.page_table, *mem, alloc@));
            self.lemma_wf_table(*mem, alloc@);
        }
        let area = &self.areas[i];
        let start = area.vpn_range.get_start().0;
        let end = area.vpn_range.get_end().0;
        let mut bytes: Vec<u8> = Vec::new();
        let mut v = start;
        while v < end
            invariant
                *area == a,
                start == a.start(),
                end == a.end(),
                start <= v <= end,
                mem.wf(),
                a.kind() == MapType::Framed,
                forall|u: usize| #[trigger] a.frames().contains_key(u) <==> (a.kind() == MapType::Framed && a.contains(u)),
                a.frames_placed(&self.page_table, *mem),
                bytes@ == area_image(*mem, a, (v - start) as nat),
            decreases end - v,
        {
            assert(a.frames().contains_key(v));
            let frame = area.data_frames.get(&v);
            let ppn = match frame {
                Some(f) => f.ppn.0,
                None => {
                    proof {
                        assert(area.data_frames@.contains_key(v));
                    }
                    0
                },
            };
            proof {
                assert(ppn == a.frames()[v]);
            }
            let mut page = mem.read_page(ppn);
            bytes.append(&mut page);
            proof {
                assert((a.start() + (v + 1 - start) - 1) as usize == v);
            }
            v = v + 1;
        }
        bytes
    }

    /// A copy of user address space `user_space` for a forked child: a
    /// fresh page table with the trampoline mapped onto `strampoline`, and
    /// for each area, in order, an area over the same pages with the same
    /// backing and permissions; each framed page gets a frame of its own
    /// holding the bytes of the parent's frame. The areas must lie apart
    /// below page 2^27 and off the trampoline page, and the frame allocator
    /// must have the frames the copy takes.
    pub fn from_existed_user(user_space: &MemorySet, strampoline: usize, alloc: &mut StackFrameAllocator, mem: &mut PhysMemory) -> (ms: Self)
        requires
            user_space.wf(*old(mem), old(alloc)@),
            mem_fits_ptes(*old(mem)),
            strampoline % PAGE_SIZE == 0,
            3 + frames_from(area_ranges(user_space.areas()), 0, 1) <= frames_left(old(alloc)@),
            forall|i: int, v: usize| 0 <= i < user_space.areas().len() && #[trigger] user_space.areas()[i].contains(v)
                ==> v < 134217728 && v != trampoline_vpn(),
            forall|i: int, j: int| 0 <= i < j < user_space.areas().len()
                ==> #[trigger] user_space.areas()[i].end() <= #[trigger] user_space.areas()[j].start()
                    || user_space.areas()[j].end() <= user_space.areas()[i].start(),
        ensures
            ms.wf(*final(mem), final(alloc)@),
            ms.areas().len() == user_space.areas().len(),
            forall|i: int| 0 <= i < ms.areas().len() ==> {
                &&& #[trigger] ms.areas()[i].start() == user_space.areas()[i].start()
                &&& ms.areas()[i].end() == user_space.areas()[i].end()
                &&& ms.areas()[i].kind() == user_space.areas()[i].kind()
                &&& ms.areas()[i].perm() == user_space.areas()[i].perm()
            },
            forall|i: int, v: usize| 0 <= i < ms.areas().len() && ms.areas()[i].kind() == MapType::Framed
                && ms.areas()[i].contains(v)
                ==> final(mem).page(#[trigger] ms.areas()[i].frames()[v]) == old(mem).page(user_space.areas()[i].frames()[v]),
            mapping(*final(mem), ms.root(), trampoline_vpn()) == Some(pte_bits(
                (((strampoline as u64) & 0xff_ffff_ffff_ffffu64) as usize) / PAGE_SIZE, 10u8 | 1u8)),
    {
        let ghost m0 = *mem;
        let ghost parent = user_space.areas();
        let ghost rs = area_ranges(parent);
        proof {
            user_space.lemma_wf_table(m0, alloc@);
            lemma_frames_from_nonneg(rs, 0, 1);
            lemma_trampoline_vpn();
        }
        let mut images: Vec<Option<Vec<u8>>> = Vec::new();
        let mut k: usize = 0;
        while k < user_space.areas.len()
            invariant
                *mem == m0,
                user_space.wf(m0, alloc@),
                parent == user_space.areas(),
                k <= parent.len(),
                images@.len() == k,
                forall|i: int| 0 <= i < k ==> match #[trigger] images@[i] {
                    Some(d) => parent[i].kind() == MapType::Framed && parent[i].start() < parent[i].end()
                        && d@ == area_image(m0, parent[i], (parent[i].end() - parent[i].start()) as nat),
                    None => !(parent[i].kind() == MapType::Framed && parent[i].start() < parent[i].end()),
                },
            decreases parent.len() - k,
        {
            let framed = match user_space.areas[k].map_type {
                MapType::Framed => true,
                MapType::Identical => false,
            };
            if framed && user_space.areas[k].vpn_range.get_start().0 < user_space.areas[k].vpn_range.get_end().0 {
                let d = user_space.read_area(mem, alloc, k);
                images.push(Some(d));
            } else {
                images.push(None);
            }
            k = k + 1;
        }
        let mut ms = MemorySet::new_bare(alloc, mem);
        proof {
            ms.lemma_wf_table(*mem, alloc@);
        }
        ms.map_trampoline(strampoline, alloc, mem);
        let ghost tramp_pte = pte_bits(#[verifier::truncate] (((strampoline as u64) & 0xff_ffff_ffff_ffffu64) as usize) / PAGE_SIZE, 10u8 | 1u8);
        proof {
            let m = *mem;
            assert forall|v: usize| v < 134217728 && v != trampoline_vpn() implies #[trigger] mapping(m, ms.root(), v) is None by {
                lemma_small_pages_distinct_slots(v, trampoline_vpn());
            }
            assert(same_slot(trampoline_vpn(), trampoline_vpn()));
        }
        let mut i: usize = 0;
        while i < user_space.areas.len()
            invariant
                parent == user_space.areas(),
                rs == area_ranges(parent),
                i <= parent.len(),
                images@.len() == parent.len(),
                forall|j: int| 0 <= j < parent.len() ==> match #[trigger] images@[j] {
                    Some(d) => parent[j].kind() == MapType::Framed && parent[j].start() < parent[j].end()
                        && d@ == area_image(m0, parent[j], (parent[j].end() - parent[j].start()) as nat),
                    None => !(parent[j].kind() == MapType::Framed && parent[j].start() < parent[j].end()),
                },
                user_space.wf(m0, old(alloc)@),
                m0.wf(),
                forall|j: int, v: usize| 0 <= j < parent.len() && #[trigger] parent[j].contains(v)
                    ==> v < 134217728 && v != trampoline_vpn(),
                forall|a: int, b: int| 0 <= a < b < parent.len()
                    ==> #[trigger] parent[a].end() <= #[trigger] parent[b].start() || parent[b].end() <= parent[a].start(),
                ms.wf(*mem, alloc@),
                mem_fits_ptes(*mem),
                ms.areas().len() == i,
                forall|j: int| 0 <= j < i ==> {
                    &&& #[trigger] ms.areas()[j].start() == parent[j].start()
                    &&& ms.areas()[j].end() == parent[j].end()
                    &&& ms.areas()[j].kind() == parent[j].kind()
                    &&& ms.areas()[j].perm() == parent[j].perm()
                },
                forall|j: int, v: usize| 0 <= j < i && ms.areas()[j].kind() == MapType::Framed && ms.areas()[j].contains(v)
                    ==> mem.page(#[trigger] ms.areas()[j].frames()[v]) == m0.page(parent[j].frames()[v]),
                forall|v: usize| v < 134217728 && v != trampoline_vpn()
                    && (forall|j: int| 0 <= j < i ==> !(#[trigger] parent[j].contains(v)))
                    ==> #[trigger] mapping(*mem, ms.root(), v) is None,
                mapping(*mem, ms.root(), trampoline_vpn()) == Some(tramp_pte),
                frames_from(rs, i as int, 1) <= frames_left(alloc@),
            decreases parent.len() - i,
        {
            let ghost m1 = *mem;
            let ghost a1 = alloc@;
            let ghost ms1 = ms;
            let ghost pa = parent[i as int];
            proof {
                assert(area_placed(&user_space.areas@[i as int], &user_space.page_table, m0, old(alloc)@));
                lemma_frames_from_nonneg(rs, i + 1, 1);
                assert(rs[i as int] == (pa.start() as int, pa.end() as int));
                assert(frames_for(pa.start() as int, pa.end() as int, pa.frames_per_page())
                    <= frames_for(pa.start() as int, pa.end() as int, 1)) by (nonlinear_arith)
                    requires
                        0 <= pa.frames_per_page() <= 1,
                        pa.start() <= pa.end(),
                        frames_for(pa.start() as int, pa.end() as int, pa.frames_per_page()) == if pa.end() <= pa.start() { 0 } else {
                            2 * ((pa.end() - 1) / 512 - pa.start() / 512 + 1) + pa.frames_per_page() * (pa.end() - pa.start()) },
                        frames_for(pa.start() as int, pa.end() as int, 1) == if pa.end() <= pa.start() { 0 } else {
                            2 * ((pa.end() - 1) / 512 - pa.start() / 512 + 1) + 1 * (pa.end() - pa.start()) };
            }
            let area = MapArea::from_another(&user_space.areas[i]);
            let ghost ga = area;
            proof {
                assert forall|v: usize| area.contains(v) implies #[trigger] mapping(*mem, ms.root(), v) is None by {
                    assert(parent[i as int].contains(v));
                    assert forall|j: int| 0 <= j < i implies !(#[trigger] parent[j].contains(v)) by {
                        assert(parent[j].end() <= parent[i as int].start() || parent[i as int].end() <= parent[j].start());
                    }
                }
            }
            match &images[i] {
                Some(d) => {
                    proof {
                        assert(forall|k: int| 0 <= k < pa.end() - pa.start()
                            ==> #[trigger] m0.page(pa.frames()[(pa.start() + k) as usize]).len() == PAGE_SIZE) by {
                            assert forall|k: int| 0 <= k < pa.end() - pa.start()
                                implies #[trigger] m0.page(pa.frames()[(pa.start() + k) as usize]).len() == PAGE_SIZE by {
                                let u = (pa.start() + k) as usize;
                                assert(pa.frames().contains_key(u));
                                m0.lemma_page_len(pa.frames()[u]);
                            }
                        }
                        lemma_area_image_chunk(m0, pa, (pa.end() - pa.start()) as nat, 0);
                    }
                    ms.push(area, Some(d.as_slice()), alloc, mem);
                },
                None => {
                    ms.push(area, None, alloc, mem);
                },
            }
            proof {
                let m2 = *mem;
                let na = ms.areas()[i as int];
                assert forall|j: int| 0 <= j <= i implies {
                    &&& #[trigger] ms.areas()[j].start() == parent[j].start()
                    &&& ms.areas()[j].end() == parent[j].end()
                    &&& ms.areas()[j].kind() == parent[j].kind()
                    &&& ms.areas()[j].perm() == parent[j].perm()
                } by {
                    if j < i {
                        assert(ms.areas()[j] == ms1.areas()[j]);
                    }
                }
                assert forall|j: int, v: usize| 0 <= j <= i && ms.areas()[j].kind() == MapType::Framed && ms.areas()[j].contains(v)
                    implies m2.page(#[trigger] ms.areas()[j].frames()[v]) == m0.page(parent[j].frames()[v]) by {
                    if j < i {
                        let b = ms1.areas()[j];
                        assert(ms.areas()[j] == b);
                        assert(area_placed(&b, &ms1.page_table, m1, a1));
                        assert(b.frames().contains_key(v));
                        assert(area_placed(&ms.areas@[j], &ms.page_table, m2, alloc@));
                        assert(m2.page(b.frames()[v]) == m1.page(b.frames()[v]));
                    } else {
                        assert(na.start() < na.end());
                        let img = area_image(m0, pa, (pa.end() - pa.start()) as nat);
                        let k = v - pa.start();
                        assert forall|kk: int| 0 <= kk < pa.end() - pa.start()
                            implies #[trigger] m0.page(pa.frames()[(pa.start() + kk) as usize]).len() == PAGE_SIZE by {
                            let u = (pa.start() + kk) as usize;
                            assert(pa.frames().contains_key(u));
                            m0.lemma_page_len(pa.frames()[u]);
                        }
                        lemma_area_image_chunk(m0, pa, (pa.end() - pa.start()) as nat, k);
                        assert((pa.start() + k) as usize == v);
                        let pg = m0.page(pa.frames()[v]);
                        assert(pg.len() == PAGE_SIZE);
                        assert(with_prefix(zero_page(), pg) =~= pg);
                    }
                }
                assert forall|v: usize| v < 134217728 && v != trampoline_vpn()
                    && (forall|j: int| 0 <= j < i + 1 ==> !(#[trigger] parent[j].contains(v)))
                    implies #[trigger] mapping(m2, ms.root(), v) is None by {
                    assert(!parent[i as int].contains(v));
                    assert forall|u: usize| ga.contains(u) implies !same_slot(v, u) by {
                        assert(pa.contains(u));
                        lemma_small_pages_distinct_slots(v, u);
                    }
                    assert forall|j: int| 0 <= j < i implies !(#[trigger] parent[j].contains(v)) by {
                        assert(!parent[j].contains(v));
                    }
                }
                lemma_trampoline_vpn();
                assert forall|u: usize| ga.contains(u) implies !same_slot(trampoline_vpn(), u) by {
                    assert(pa.contains(u));
                    lemma_small_pages_distinct_slots(trampoline_vpn(), u);
                }
                assert(mapping(m2, ms.root(), trampoline_vpn()) == mapping(m1, ms1.root(), trampoline_vpn()));
            }
            i = i + 1;
        }
        ms
    }
}

} // verus!
