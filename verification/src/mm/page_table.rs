//! SV39 page-table entries and three-level page tables.
//!
//! An entry holds a physical page number in bits 10..54 and flags in bits
//! 0..8. A virtual page number is split into three 9-bit indexes; the walk
//! starts at the root table and follows valid entries two levels down to the
//! leaf entry. Table pages live in the modelled physical memory.
use vstd::prelude::*;
use crate::mm::address::{PhysPageNum, VirtPageNum};
use crate::mm::frame_allocator::{FrameTracker, StackFrameAllocator, FrameAllocatorModel, frame_alloc, lemma_alloc_fresh};
use crate::mm::phys_mem::{PhysMemory, WORDS_PER_PAGE, zero_page, word_of, lemma_zero_page_words};

verus! {

/// Flags of a page-table entry, as a bit set.
#[derive(Copy, Clone, Debug, PartialEq, Eq, Structural)]
pub struct PTEFlags {
    pub bits: u8,
}

impl PTEFlags {
    /// Valid: the entry is in use.
    pub const V: u8 = 1;
    /// Readable.
    pub const R: u8 = 2;
    /// Writable.
    pub const W: u8 = 4;
    /// Executable.
    pub const X: u8 = 8;
    /// Accessible from user mode.
    pub const U: u8 = 16;
    /// Global.
    pub const G: u8 = 32;
    /// Accessed.
    pub const A: u8 = 64;
    /// Dirty.
    pub const D: u8 = 128;

    /// The flags with exactly the bits of `bits`. Every bit of a byte names a
    /// flag, so this always succeeds.
    pub fn from_bits(bits: u8) -> (f: Option<Self>)
        ensures
            f == Some(PTEFlags { bits }),
    {
        Some(PTEFlags { bits })
    }

    /// No flag set.
    pub fn empty() -> (f: Self)
        ensures
            f.bits == 0,
    {
        PTEFlags { bits: 0 }
    }

    /// The flags set in either `self` or `other`.
    pub fn union(self, other: Self) -> (f: Self)
        ensures
            f.bits == self.bits | other.bits,
    {
        PTEFlags { bits: self.bits | other.bits }
    }

    /// Whether any flag of `other` is set.
    pub fn intersects(self, other: u8) -> (r: bool)
        ensures
            r == (self.bits & other != 0),
    {
        self.bits & other != 0
    }
}

/// Mask of the 44 bits of a physical page number.
pub open spec fn ppn_mask() -> u64 {
    0xfff_ffff_ffffu64
}

/// The physical page number held by entry bits `bits`.
pub open spec fn pte_ppn(bits: usize) -> usize {
    (((bits as u64) >> 10u64) & ppn_mask()) as usize
}

/// Whether entry bits `bits` have the valid flag.
pub open spec fn pte_valid(bits: usize) -> bool {
    (bits as u64) & 1u64 == 1u64
}

/// The flags of entry bits `bits`.
pub open spec fn pte_flags(bits: usize) -> u8 {
    ((bits as u64) & 0xffu64) as u8
}

/// The entry bits that map page `ppn` with flags `flags`.
pub open spec fn pte_bits(ppn: usize, flags: u8) -> usize {
    (((ppn as u64) << 10u64) | (flags as u64)) as usize
}

/// An entry of a page table.
#[derive(Copy, Clone)]
pub struct PageTableEntry {
    pub bits: usize,
}

impl PageTableEntry {
    /// The entry that maps page `ppn` with flags `flags`.
    pub fn new(ppn: PhysPageNum, flags: PTEFlags) -> (e: Self)
        ensures
            e.bits == pte_bits(ppn.0, flags.bits),
    {
        PageTableEntry { bits: (((ppn.0 as u64) << 10u64) | (flags.bits as u64)) as usize }
    }

    /// The entry with every bit clear.
    pub fn empty() -> (e: Self)
        ensures
            e.bits == 0,
    {
        PageTableEntry { bits: 0 }
    }

    /// The physical page number in this entry.
    pub fn ppn(&self) -> (p: PhysPageNum)
        ensures
            p.0 == pte_ppn(self.bits),
    {
        PhysPageNum((((self.bits as u64) >> 10u64) & 0xfff_ffff_ffffu64) as usize)
    }

    /// The flags of this entry.
    pub fn flags(&self) -> (f: PTEFlags)
        ensures
            f.bits == pte_flags(self.bits),
    {
        PTEFlags { bits: ((self.bits as u64) & 0xffu64) as u8 }
    }

    /// Whether the valid flag is set.
    pub fn is_valid(&self) -> (r: bool)
        ensures
            r == pte_valid(self.bits),
    {
        let r = self.flags().intersects(PTEFlags::V);
        proof {
            let b = self.bits as u64;
            assert(((b & 0xffu64) as u8) & 1u8 != 0 <==> b & 1u64 == 1u64) by (bit_vector);
        }
        r
    }

    /// Whether the readable flag is set.
    pub fn readable(&self) -> (r: bool)
        ensures
            r == (pte_flags(self.bits) & PTEFlags::R != 0),
    {
        self.flags().intersects(PTEFlags::R)
    }

    /// Whether the writable flag is set.
    pub fn writable(&self) -> (r: bool)
        ensures
            r == (pte_flags(self.bits) & PTEFlags::W != 0),
    {
        self.flags().intersects(PTEFlags::W)
    }

    /// Whether the executable flag is set.
    pub fn executable(&self) -> (r: bool)
        ensures
            r == (pte_flags(self.bits) & PTEFlags::X != 0),
    {
        self.flags().intersects(PTEFlags::X)
    }
}

/// Law: an entry made from a page number (below 2^44) and flags gives back
/// that page number and those flags, and is valid exactly when the flags
/// include the valid flag.
pub proof fn lemma_pte_roundtrip(ppn: usize, flags: u8)
    requires
        ppn < 0x1000_0000_0000,
        ppn * 1024 + 255 <= usize::MAX,
    ensures
        pte_ppn(pte_bits(ppn, flags)) == ppn,
        pte_flags(pte_bits(ppn, flags)) == flags,
        pte_valid(pte_bits(ppn, flags)) == (flags & 1u8 == 1u8),
{
    let p = ppn as u64;
    let f = flags as u64;
    assert(p < 0x1000_0000_0000u64);
    assert(((((p << 10u64) | f) >> 10u64) & 0xfff_ffff_ffffu64) == p) by (bit_vector)
        requires p < 0x1000_0000_0000u64, f < 256u64;
    assert((((p << 10u64) | f) & 0xffu64) == f) by (bit_vector)
        requires f < 256u64;
    assert(((((p << 10u64) | f) & 1u64) == 1u64) == ((f & 1u64) == 1u64)) by (bit_vector);
    assert(((flags & 1u8) == 1u8) == ((f & 1u64) == 1u64)) by (bit_vector)
        requires f == flags as u64;
    let b = (p << 10u64) | f;
    assert(b == p * 1024 + f) by (bit_vector)
        requires p < 0x1000_0000_0000u64, f < 256u64, b == (p << 10u64) | f;
    assert(pte_bits(ppn, flags) == b as usize);
    assert(((b as usize) as u64) == b);
}

/// Root-level index of a virtual page number.
pub open spec fn idx0(vpn: usize) -> int {
    (vpn as int / 262144) % 512
}

/// Middle-level index of a virtual page number.
pub open spec fn idx1(vpn: usize) -> int {
    (vpn as int / 512) % 512
}

/// Leaf-level index of a virtual page number.
pub open spec fn idx2(vpn: usize) -> int {
    vpn as int % 512
}

/// Entry `idx` of the table in page `ppn`.
pub open spec fn entry(mem: PhysMemory, ppn: usize, idx: int) -> usize {
    mem.word(ppn, idx) as usize
}

/// The leaf entry that a walk from table `root` reaches for page `vpn`, or
/// `None` if an upper-level entry on the way is not valid.
pub open spec fn walk(mem: PhysMemory, root: usize, vpn: usize) -> Option<usize> {
    let e0 = entry(mem, root, idx0(vpn));
    if !pte_valid(e0) {
        None
    } else {
        let e1 = entry(mem, pte_ppn(e0), idx1(vpn));
        if !pte_valid(e1) {
            None
        } else {
            Some(entry(mem, pte_ppn(e1), idx2(vpn)))
        }
    }
}

/// Whether every table page that a walk for `vpn` reads is in memory.
pub open spec fn walk_in_memory(mem: PhysMemory, root: usize, vpn: usize) -> bool {
    let e0 = entry(mem, root, idx0(vpn));
    &&& mem.has_page(root)
    &&& pte_valid(e0) ==> {
        let e1 = entry(mem, pte_ppn(e0), idx1(vpn));
        &&& mem.has_page(pte_ppn(e0))
        &&& pte_valid(e1) ==> mem.has_page(pte_ppn(e1))
    }
}

/// The entry that maps page `vpn`: the leaf entry when it is valid.
pub open spec fn mapping(mem: PhysMemory, root: usize, vpn: usize) -> Option<usize> {
    match walk(mem, root, vpn) {
        Some(e) => if pte_valid(e) { Some(e) } else { None },
        None => None,
    }
}

/// Whether page numbers of memory fit in an entry and entries fit in a `usize`.
pub open spec fn mem_fits_ptes(mem: PhysMemory) -> bool {
    &&& mem.base() + mem.num_pages() <= 0x1000_0000_0000
    &&& (mem.base() + mem.num_pages()) * 1024 + 255 <= usize::MAX
}

/// Whether `p` is a table page of the tree with root `root`, middle tables
/// `l1` and leaf tables `l2`.
pub open spec fn tree_has(root: usize, l1: Map<int, usize>, l2: Map<(int, int), usize>, p: usize) -> bool {
    ||| p == root
    ||| exists|a: int| #[trigger] l1.contains_key(a) && l1[a] == p
    ||| exists|k: (int, int)| #[trigger] l2.contains_key(k) && l2[k] == p
}

/// The tables in memory form a tree: valid root entries lead to distinct
/// middle tables `l1`, valid middle entries to distinct leaf tables `l2`, no
/// table page is shared between levels, and every table page is in memory.
pub open spec fn tree_wf(mem: PhysMemory, root: usize, l1: Map<int, usize>, l2: Map<(int, int), usize>) -> bool {
    &&& mem.wf()
    &&& mem_fits_ptes(mem)
    &&& mem.has_page(root)
    &&& forall|a: int| 0 <= a < 512 ==> (pte_valid(#[trigger] entry(mem, root, a)) <==> l1.contains_key(a))
    &&& forall|a: int| #[trigger] l1.contains_key(a) ==> {
        &&& 0 <= a < 512
        &&& pte_ppn(entry(mem, root, a)) == l1[a]
        &&& mem.has_page(l1[a])
        &&& l1[a] != root
    }
    &&& forall|a: int, b: int| #[trigger] l1.contains_key(a) && 0 <= b < 512 ==> (pte_valid(
        #[trigger] entry(mem, l1[a], b)) <==> l2.contains_key((a, b)))
    &&& forall|k: (int, int)| #[trigger] l2.contains_key(k) ==> {
        &&& l1.contains_key(k.0)
        &&& 0 <= k.1 < 512
        &&& pte_ppn(entry(mem, l1[k.0], k.1)) == l2[k]
        &&& mem.has_page(l2[k])
        &&& l2[k] != root
    }
    &&& forall|a: int, b: int| #[trigger] l1.contains_key(a) && #[trigger] l1.contains_key(b) && a != b
        ==> l1[a] != l1[b]
    &&& forall|k: (int, int), j: (int, int)| #[trigger] l2.contains_key(k) && #[trigger] l2.contains_key(j) && k != j
        ==> l2[k] != l2[j]
    &&& forall|a: int, k: (int, int)| #[trigger] l1.contains_key(a) && #[trigger] l2.contains_key(k)
        ==> l1[a] != l2[k]
}

/// In a tree, the walk for any page reads only pages in memory, and what it
/// reaches is told by the tree.
proof fn lemma_tree_walk(mem: PhysMemory, root: usize, l1: Map<int, usize>, l2: Map<(int, int), usize>, vpn: usize)
    requires
        tree_wf(mem, root, l1, l2),
    ensures
        walk_in_memory(mem, root, vpn),
        walk(mem, root, vpn) == if l1.contains_key(idx0(vpn)) && l2.contains_key((idx0(vpn), idx1(vpn))) {
            Some(entry(mem, l2[(idx0(vpn), idx1(vpn))], idx2(vpn)))
        } else {
            None
        },
{
    let a = idx0(vpn);
    let b = idx1(vpn);
    assert(0 <= a < 512 && 0 <= b < 512);
    let e0 = entry(mem, root, a);
    if pte_valid(e0) {
        assert(l1.contains_key(a));
        let e1 = entry(mem, l1[a], b);
        if pte_valid(e1) {
            assert(l2.contains_key((a, b)));
        } else {
            assert(!l2.contains_key((a, b)));
        }
    }
}

/// Entry bits with every bit clear are not valid.
proof fn lemma_zero_entry_invalid()
    ensures
        !pte_valid(0usize),
{
    assert(((0usize as u64) & 1u64) != 1u64) by (bit_vector);
}

/// The entries of a zeroed page are not valid.
proof fn lemma_zeroed_entries(mem: PhysMemory, p: usize)
    requires
        mem.page(p) == zero_page(),
    ensures
        forall|j: int| 0 <= j < 512 ==> !pte_valid(#[trigger] entry(mem, p, j)),
{
    lemma_zero_page_words();
    lemma_zero_entry_invalid();
    assert forall|j: int| 0 <= j < 512 implies !pte_valid(#[trigger] entry(mem, p, j)) by {
        assert(word_of(zero_page(), j) == 0);
        assert((0u64 as usize) == 0usize);
    }
}

/// An entry made for a page in memory that fits the entry format is valid
/// when its flags include the valid flag, and points at that page.
proof fn lemma_table_entry(mem: PhysMemory, f: usize)
    requires
        mem_fits_ptes(mem),
        mem.has_page(f),
    ensures
        pte_valid(pte_bits(f, 1u8)),
        pte_ppn(pte_bits(f, 1u8)) == f,
        (pte_bits(f, 1u8) as u64) as usize == pte_bits(f, 1u8),
{
    lemma_pte_roundtrip(f, 1u8);
    assert(1u8 & 1u8 == 1u8) by (bit_vector);
}

/// Adding a middle table: root entry `a` (not valid before) now points at
/// the zeroed page `f`, which was no table page. The result is a tree with
/// `a` in the middle level, and every walk reaches what it reached before.
proof fn lemma_tree_add_l1(
    mem: PhysMemory,
    mem2: PhysMemory,
    root: usize,
    l1: Map<int, usize>,
    l2: Map<(int, int), usize>,
    a: int,
    f: usize,
)
    requires
        tree_wf(mem, root, l1, l2),
        0 <= a < 512,
        !l1.contains_key(a),
        mem.has_page(f),
        !tree_has(root, l1, l2, f),
        mem2.wf(),
        mem2.base() == mem.base(),
        mem2.num_pages() == mem.num_pages(),
        mem2.page(f) == zero_page(),
        entry(mem2, root, a) == pte_bits(f, 1u8),
        forall|j: int| 0 <= j < 512 && j != a ==> #[trigger] entry(mem2, root, j) == entry(mem, root, j),
        forall|q: usize| mem.has_page(q) && q != root && q != f ==> mem2.page(q) == mem.page(q),
    ensures
        tree_wf(mem2, root, l1.insert(a, f), l2),
        forall|v: usize| #[trigger] walk(mem2, root, v) == walk(mem, root, v),
{
    let n1 = l1.insert(a, f);
    lemma_table_entry(mem, f);
    lemma_zeroed_entries(mem2, f);
    assert forall|x: int| #[trigger] l1.contains_key(x) implies l1[x] != f && l1[x] != root by {
        assert(tree_has(root, l1, l2, l1[x]));
    }
    assert forall|k: (int, int)| #[trigger] l2.contains_key(k) implies l2[k] != f && l2[k] != root && k.0 != a by {
        assert(tree_has(root, l1, l2, l2[k]));
    }
    assert forall|x: int, b: int| #[trigger] n1.contains_key(x) && 0 <= b < 512 implies (pte_valid(
        #[trigger] entry(mem2, n1[x], b)) <==> l2.contains_key((x, b))) by {
        if x == a {
            assert(!pte_valid(entry(mem2, f, b)));
            assert(!l2.contains_key((x, b)));
        } else {
            assert(mem2.page(l1[x]) == mem.page(l1[x]));
            assert(entry(mem2, l1[x], b) == entry(mem, l1[x], b));
        }
    }
    assert forall|k: (int, int)| #[trigger] l2.contains_key(k) implies {
        &&& n1.contains_key(k.0)
        &&& 0 <= k.1 < 512
        &&& pte_ppn(entry(mem2, n1[k.0], k.1)) == l2[k]
        &&& mem2.has_page(l2[k])
        &&& l2[k] != root
    } by {
        assert(mem2.page(l1[k.0]) == mem.page(l1[k.0]));
    }
    assert forall|x: int| 0 <= x < 512 implies (pte_valid(#[trigger] entry(mem2, root, x)) <==> n1.contains_key(x)) by {
    }
    assert forall|x: int| #[trigger] n1.contains_key(x) implies {
        &&& 0 <= x < 512
        &&& pte_ppn(entry(mem2, root, x)) == n1[x]
        &&& mem2.has_page(n1[x])
        &&& n1[x] != root
    } by {
    }
    assert forall|x: int, y: int| #[trigger] n1.contains_key(x) && #[trigger] n1.contains_key(y) && x != y
        implies n1[x] != n1[y] by {
    }
    assert forall|x: int, k: (int, int)| #[trigger] n1.contains_key(x) && #[trigger] l2.contains_key(k)
        implies n1[x] != l2[k] by {
    }
    assert(tree_wf(mem2, root, n1, l2));
    assert forall|v: usize| #[trigger] walk(mem2, root, v) == walk(mem, root, v) by {
        lemma_tree_walk(mem, root, l1, l2, v);
        lemma_tree_walk(mem2, root, n1, l2, v);
        let (x, y) = (idx0(v), idx1(v));
        if n1.contains_key(x) && l2.contains_key((x, y)) {
            assert(l2[(x, y)] != f && l2[(x, y)] != root);
            assert(mem2.page(l2[(x, y)]) == mem.page(l2[(x, y)]));
        }
    }
}

/// Adding a leaf table: entry `b` of middle table `l1[a]` (not valid before)
/// now points at the zeroed page `g`, which was no table page. The result is
/// a tree with `(a, b)` in the leaf level, and no page's mapping changes.
proof fn lemma_tree_add_l2(
    mem: PhysMemory,
    mem2: PhysMemory,
    root: usize,
    l1: Map<int, usize>,
    l2: Map<(int, int), usize>,
    a: int,
    b: int,
    g: usize,
)
    requires
        tree_wf(mem, root, l1, l2),
        l1.contains_key(a),
        0 <= b < 512,
        !l2.contains_key((a, b)),
        mem.has_page(g),
        !tree_has(root, l1, l2, g),
        mem2.wf(),
        mem2.base() == mem.base(),
        mem2.num_pages() == mem.num_pages(),
        mem2.page(g) == zero_page(),
        entry(mem2, l1[a], b) == pte_bits(g, 1u8),
        forall|j: int| 0 <= j < 512 && j != b ==> #[trigger] entry(mem2, l1[a], j) == entry(mem, l1[a], j),
        forall|q: usize| mem.has_page(q) && q != l1[a] && q != g ==> mem2.page(q) == mem.page(q),
    ensures
        tree_wf(mem2, root, l1, l2.insert((a, b), g)),
        forall|v: usize| #[trigger] mapping(mem2, root, v) == mapping(mem, root, v),
{
    let n2 = l2.insert((a, b), g);
    let p = l1[a];
    lemma_table_entry(mem, g);
    lemma_zeroed_entries(mem2, g);
    lemma_zero_entry_invalid();
    assert(tree_has(root, l1, l2, p));
    assert forall|x: int| #[trigger] l1.contains_key(x) implies l1[x] != g && l1[x] != root by {
        assert(tree_has(root, l1, l2, l1[x]));
    }
    assert forall|k: (int, int)| #[trigger] l2.contains_key(k) implies l2[k] != g && l2[k] != root && l2[k] != p by {
        assert(tree_has(root, l1, l2, l2[k]));
    }
    assert(mem2.page(root) == mem.page(root));
    assert forall|x: int| 0 <= x < 512 implies (pte_valid(#[trigger] entry(mem2, root, x)) <==> l1.contains_key(x)) by {
        assert(entry(mem2, root, x) == entry(mem, root, x));
    }
    assert forall|x: int, y: int| #[trigger] l1.contains_key(x) && 0 <= y < 512 implies (pte_valid(
        #[trigger] entry(mem2, l1[x], y)) <==> n2.contains_key((x, y))) by {
        if x != a {
            assert(l1[x] != p);
            assert(mem2.page(l1[x]) == mem.page(l1[x]));
            assert(entry(mem2, l1[x], y) == entry(mem, l1[x], y));
        } else if y != b {
            assert(entry(mem2, l1[x], y) == entry(mem, l1[x], y));
        }
    }
    assert forall|k: (int, int)| #[trigger] n2.contains_key(k) implies {
        &&& l1.contains_key(k.0)
        &&& 0 <= k.1 < 512
        &&& pte_ppn(entry(mem2, l1[k.0], k.1)) == n2[k]
        &&& mem2.has_page(n2[k])
        &&& n2[k] != root
    } by {
        if k != (a, b) {
            if k.0 != a {
                assert(l1[k.0] != p);
                assert(mem2.page(l1[k.0]) == mem.page(l1[k.0]));
            }
        }
    }
    assert forall|k: (int, int), j: (int, int)| #[trigger] n2.contains_key(k) && #[trigger] n2.contains_key(j) && k != j
        implies n2[k] != n2[j] by {
    }
    assert forall|x: int, k: (int, int)| #[trigger] l1.contains_key(x) && #[trigger] n2.contains_key(k)
        implies l1[x] != n2[k] by {
    }
    assert forall|x: int| #[trigger] l1.contains_key(x) implies {
        &&& 0 <= x < 512
        &&& pte_ppn(entry(mem2, root, x)) == l1[x]
        &&& mem2.has_page(l1[x])
        &&& l1[x] != root
    } by {
    }
    assert(tree_wf(mem2, root, l1, n2));
    assert forall|v: usize| #[trigger] mapping(mem2, root, v) == mapping(mem, root, v) by {
        lemma_tree_walk(mem, root, l1, l2, v);
        lemma_tree_walk(mem2, root, l1, n2, v);
        let (x, y) = (idx0(v), idx1(v));
        if (x, y) == (a, b) {
            assert(!pte_valid(entry(mem2, g, idx2(v))));
        } else if l1.contains_key(x) && l2.contains_key((x, y)) {
            assert(mem2.page(l2[(x, y)]) == mem.page(l2[(x, y)]));
        }
    }
}

/// Writing entry `i` of the leaf table `l2[k]`: the tree stays a tree, and
/// only the pages whose three indexes are `k` and `i` change their leaf entry.
proof fn lemma_tree_write_leaf(
    mem: PhysMemory,
    mem2: PhysMemory,
    root: usize,
    l1: Map<int, usize>,
    l2: Map<(int, int), usize>,
    k: (int, int),
    i: int,
    e: usize,
)
    requires
        tree_wf(mem, root, l1, l2),
        l2.contains_key(k),
        0 <= i < 512,
        mem2.wf(),
        mem2.base() == mem.base(),
        mem2.num_pages() == mem.num_pages(),
        entry(mem2, l2[k], i) == e,
        forall|j: int| 0 <= j < 512 && j != i ==> #[trigger] entry(mem2, l2[k], j) == entry(mem, l2[k], j),
        forall|q: usize| mem.has_page(q) && q != l2[k] ==> mem2.page(q) == mem.page(q),
    ensures
        tree_wf(mem2, root, l1, l2),
        forall|v: usize| #[trigger] walk(mem2, root, v) == if (idx0(v), idx1(v)) == k && idx2(v) == i {
            Some(e)
        } else {
            walk(mem, root, v)
        },
{
    let p = l2[k];
    assert forall|x: int| #[trigger] l1.contains_key(x) implies l1[x] != p by {
    }
    assert(p != root);
    assert(mem2.page(root) == mem.page(root));
    assert forall|x: int| 0 <= x < 512 implies (pte_valid(#[trigger] entry(mem2, root, x)) <==> l1.contains_key(x)) by {
        assert(entry(mem2, root, x) == entry(mem, root, x));
    }
    assert forall|x: int, y: int| #[trigger] l1.contains_key(x) && 0 <= y < 512 implies (pte_valid(
        #[trigger] entry(mem2, l1[x], y)) <==> l2.contains_key((x, y))) by {
        assert(mem2.page(l1[x]) == mem.page(l1[x]));
        assert(entry(mem2, l1[x], y) == entry(mem, l1[x], y));
    }
    assert forall|j: (int, int)| #[trigger] l2.contains_key(j) implies {
        &&& l1.contains_key(j.0)
        &&& 0 <= j.1 < 512
        &&& pte_ppn(entry(mem2, l1[j.0], j.1)) == l2[j]
        &&& mem2.has_page(l2[j])
        &&& l2[j] != root
    } by {
        assert(mem2.page(l1[j.0]) == mem.page(l1[j.0]));
    }
    assert forall|x: int| #[trigger] l1.contains_key(x) implies {
        &&& 0 <= x < 512
        &&& pte_ppn(entry(mem2, root, x)) == l1[x]
        &&& mem2.has_page(l1[x])
        &&& l1[x] != root
    } by {
    }
    assert(tree_wf(mem2, root, l1, l2));
    assert forall|v: usize| #[trigger] walk(mem2, root, v) == if (idx0(v), idx1(v)) == k && idx2(v) == i {
        Some(e)
    } else {
        walk(mem, root, v)
    } by {
        lemma_tree_walk(mem, root, l1, l2, v);
        lemma_tree_walk(mem2, root, l1, l2, v);
        let (x, y) = (idx0(v), idx1(v));
        if l1.contains_key(x) && l2.contains_key((x, y)) && (x, y) != k {
            assert(l2[(x, y)] != p);
            assert(mem2.page(l2[(x, y)]) == mem.page(l2[(x, y)]));
        }
    }
}

/// A three-level page table.
pub struct PageTable {
    root_ppn: PhysPageNum,
    frames: Vec<FrameTracker>,
    l1: Ghost<Map<int, usize>>,
    l2: Ghost<Map<(int, int), usize>>,
}

impl PageTable {
    /// The root table page.
    pub closed spec fn root(&self) -> usize {
        self.root_ppn.0
    }

    /// Whether page `p` is one of this table's own table pages.
    pub closed spec fn is_table(&self, p: usize) -> bool {
        tree_has(self.root_ppn.0, self.l1@, self.l2@, p)
    }

    /// The pages of the frames this table owns.
    pub closed spec fn frame_ppns(&self) -> Seq<usize> {
        self.frames@.map_values(|f: FrameTracker| f.ppn.0)
    }

    /// The table pages form a tree in memory and the table owns exactly its
    /// table pages.
    pub closed spec fn wf(&self, mem: PhysMemory) -> bool {
        &&& tree_wf(mem, self.root_ppn.0, self.l1@, self.l2@)
        &&& forall|p: usize| self.is_table(p) <==> self.frame_ppns().contains(p)
        &&& self.frame_ppns().no_duplicates()
    }

    /// Every table page of this table is in use in `alloc`.
    pub open spec fn tables_in_use(&self, alloc: FrameAllocatorModel) -> bool {
        forall|p: usize| self.is_table(p) ==> alloc.in_use(p)
    }
}

/// Whether the allocator's state is sound and every frame it may hand out
/// is in memory.
pub open spec fn alloc_ready(alloc: FrameAllocatorModel, mem: PhysMemory) -> bool {
    &&& alloc.wf()
    &&& forall|p: usize| alloc.is_free(p) ==> mem.has_page(p)
}

/// Number of frames the allocator can still hand out.
pub open spec fn frames_left(alloc: FrameAllocatorModel) -> int {
    alloc.recycled.len() + (alloc.end - alloc.current)
}

/// An allocator with a frame left hands one out, and has one fewer left.
pub proof fn lemma_alloc_some(alloc: FrameAllocatorModel)
    requires
        alloc.wf(),
        frames_left(alloc) > 0,
    ensures
        alloc.alloc_spec().1 is Some,
        frames_left(alloc.alloc_spec().0) == frames_left(alloc) - 1,
{
}

/// Allocating keeps every free frame in memory, and the frame handed out is
/// a free frame in memory.
pub proof fn lemma_alloc_keeps_ready(alloc: FrameAllocatorModel, mem: PhysMemory, mem2: PhysMemory)
    requires
        alloc_ready(alloc, mem),
        mem2.base() == mem.base(),
        mem2.num_pages() == mem.num_pages(),
    ensures
        alloc_ready(alloc.alloc_spec().0, mem2),
        alloc.alloc_spec().1 matches Some(p) ==> mem.has_page(p) && alloc.is_free(p),
{
    lemma_alloc_fresh(alloc);
    let b = alloc.alloc_spec().0;
    if alloc.recycled.len() > 0 {
        assert(alloc.recycled.contains(alloc.recycled.last()));
    }
    assert forall|p: usize| b.is_free(p) implies mem2.has_page(p) by {
        if b.recycled.contains(p) {
            let k = choose|k: int| 0 <= k < b.recycled.len() && b.recycled[k] == p;
            assert(alloc.recycled[k] == p);
            assert(alloc.is_free(p));
        } else {
            assert(alloc.is_free(p));
        }
    }
}

/// Whether pages `v` and `w` have the same three table indexes, so that
/// they share one leaf entry.
pub open spec fn same_slot(v: usize, w: usize) -> bool {
    idx0(v) == idx0(w) && idx1(v) == idx1(w) && idx2(v) == idx2(w)
}

/// Memory `m1` maps every page with the slot of `vpn` to `e` and every
/// other page as `m0` does, in the table with root `root`.
pub open spec fn remapped(m0: PhysMemory, m1: PhysMemory, root: usize, vpn: usize, e: Option<usize>) -> bool {
    forall|v: usize| #[trigger] mapping(m1, root, v) == if same_slot(v, vpn) {
        e
    } else {
        mapping(m0, root, v)
    }
}

/// Pages with the same slot have the same mapping.
pub proof fn lemma_same_slot_mapping(mem: PhysMemory, root: usize, v: usize, w: usize)
    requires
        same_slot(v, w),
    ensures
        mapping(mem, root, v) == mapping(mem, root, w),
{
}

/// The three indexes of a page number are its low 27 bits.
pub proof fn lemma_slot_bits(v: usize)
    ensures
        v as int % 134217728 == idx0(v) * 262144 + idx1(v) * 512 + idx2(v),
{
    assert(v % 134217728 == ((v / 262144) % 512) * 262144 + ((v / 512) % 512) * 512 + v % 512) by (bit_vector);
}

/// Two page numbers less than 2^27 apart, and distinct, have distinct slots.
pub proof fn lemma_near_pages_distinct_slots(v: usize, w: usize)
    requires
        v < w,
        w - v < 134217728,
    ensures
        !same_slot(v, w),
{
    lemma_slot_bits(v);
    lemma_slot_bits(w);
    if same_slot(v, w) {
        assert(v as int % 134217728 == w as int % 134217728);
        vstd::arithmetic::div_mod::lemma_fundamental_div_mod(v as int, 134217728);
        vstd::arithmetic::div_mod::lemma_fundamental_div_mod(w as int, 134217728);
        assert((w as int / 134217728 - v as int / 134217728) * 134217728 == w - v) by (nonlinear_arith)
            requires
                v as int == 134217728 * (v as int / 134217728) + v as int % 134217728,
                w as int == 134217728 * (w as int / 134217728) + w as int % 134217728,
                v as int % 134217728 == w as int % 134217728;
        assert(false) by (nonlinear_arith)
            requires
                (w as int / 134217728 - v as int / 134217728) * 134217728 == w - v,
                0 < w - v < 134217728;
    }
}

/// Law: after a page is mapped to a frame (whose number fits the 44 bits of
/// an entry), looking the page up finds a valid entry with that frame and
/// the given flags plus the valid flag.
pub proof fn lemma_map_then_translate(m0: PhysMemory, m1: PhysMemory, root: usize, vpn: usize, ppn: usize, flags: u8)
    requires
        remapped(m0, m1, root, vpn, Some(pte_bits(ppn, flags | 1u8))),
        ppn < 0x1000_0000_0000,
        ppn * 1024 + 255 <= usize::MAX,
    ensures
        mapping(m1, root, vpn) == Some(pte_bits(ppn, flags | 1u8)),
        pte_valid(pte_bits(ppn, flags | 1u8)),
        pte_ppn(pte_bits(ppn, flags | 1u8)) == ppn,
        pte_flags(pte_bits(ppn, flags | 1u8)) == flags | 1u8,
{
    assert(mapping(m1, root, vpn) == Some(pte_bits(ppn, flags | 1u8)));
    lemma_pte_roundtrip(ppn, flags | 1u8);
    assert((flags | 1u8) & 1u8 == 1u8) by (bit_vector);
}

/// Law: unmapping a page that was just mapped (and was not mapped before)
/// gives back the mappings of every page as they were.
pub proof fn lemma_unmap_undoes_map(m0: PhysMemory, m1: PhysMemory, m2: PhysMemory, root: usize, vpn: usize, e: usize)
    requires
        mapping(m0, root, vpn) is None,
        remapped(m0, m1, root, vpn, Some(e)),
        remapped(m1, m2, root, vpn, None),
    ensures
        forall|v: usize| #[trigger] mapping(m2, root, v) == mapping(m0, root, v),
{
    assert forall|v: usize| #[trigger] mapping(m2, root, v) == mapping(m0, root, v) by {
        assert(mapping(m2, root, v) == if same_slot(v, vpn) { None } else { mapping(m1, root, v) });
        assert(mapping(m1, root, v) == if same_slot(v, vpn) { Some(e) } else { mapping(m0, root, v) });
        if same_slot(v, vpn) {
            lemma_same_slot_mapping(m0, root, v, vpn);
        }
    }
}

/// Number of table pages that mapping `vpn` must add: two when the root
/// entry is not valid, one when only the middle entry is not valid.
pub open spec fn frames_needed(mem: PhysMemory, root: usize, vpn: usize) -> int {
    let e0 = entry(mem, root, idx0(vpn));
    if !pte_valid(e0) {
        2
    } else if !pte_valid(entry(mem, pte_ppn(e0), idx1(vpn))) {
        1
    } else {
        0
    }
}

/// How a table, the allocator and memory may change while tables are added:
/// the root stays, old table pages stay, each new table page was free and
/// is now in use, frames in use stay in use, and no frame becomes free.
pub open spec fn table_grows(
    pt0: &PageTable,
    pt1: &PageTable,
    a0: FrameAllocatorModel,
    a1: FrameAllocatorModel,
    m0: PhysMemory,
    m1: PhysMemory,
) -> bool {
    &&& pt1.root() == pt0.root()
    &&& m1.base() == m0.base()
    &&& m1.num_pages() == m0.num_pages()
    &&& forall|p: usize| pt0.is_table(p) ==> pt1.is_table(p)
    &&& forall|p: usize| pt1.is_table(p) && !pt0.is_table(p) ==> a0.is_free(p) && a1.in_use(p)
    &&& forall|p: usize| a0.in_use(p) ==> a1.in_use(p)
    &&& forall|p: usize| a1.is_free(p) ==> a0.is_free(p)
}

/// Pages that are not table pages of `pt1` keep their contents from `m0` to
/// `m1`.
pub open spec fn keeps_data_pages(pt1: &PageTable, m0: PhysMemory, m1: PhysMemory) -> bool {
    forall|q: usize| m0.has_page(q) && !pt1.is_table(q) ==> m1.page(q) == m0.page(q)
}

/// Allocating frees no frame.
pub proof fn lemma_alloc_free_shrinks(alloc: FrameAllocatorModel)
    requires
        alloc.wf(),
    ensures
        forall|p: usize| alloc.alloc_spec().0.is_free(p) ==> alloc.is_free(p),
{
    let b = alloc.alloc_spec().0;
    assert forall|p: usize| b.is_free(p) implies alloc.is_free(p) by {
        if b.recycled.contains(p) {
            let k = choose|k: int| 0 <= k < b.recycled.len() && b.recycled[k] == p;
            assert(alloc.recycled[k] == p);
        }
    }
}

/// A `usize` survives a round trip through `u64`.
proof fn lemma_usize_u64(x: usize)
    ensures
        (x as u64) as usize == x,
{
    assert((x as u64) as usize == x) by (bit_vector);
}

/// Entry bits whose flags include the valid flag are valid.
proof fn lemma_valid_flag(ppn: usize, flags: u8)
    ensures
        pte_valid(pte_bits(ppn, flags | 1u8)),
{
    let p = ppn as u64;
    assert((((((p << 10u64) | ((flags | 1u8) as u64)) as usize) as u64) & 1u64) == 1u64) by (bit_vector);
}

impl PageTable {
    /// A table with an empty root page taken from `alloc`. The allocator must
    /// have a frame left.
    pub fn new(alloc: &mut StackFrameAllocator, mem: &mut PhysMemory) -> (pt: Self)
        requires
            alloc_ready(old(alloc)@, *old(mem)),
            frames_left(old(alloc)@) > 0,
            old(mem).wf(),
            mem_fits_ptes(*old(mem)),
        ensures
            pt.wf(*final(mem)),
            pt.tables_in_use(final(alloc)@),
            alloc_ready(final(alloc)@, *final(mem)),
            final(alloc)@ == old(alloc)@.alloc_spec().0,
            old(alloc)@.alloc_spec().1 == Some(pt.root()),
            forall|p: usize| pt.is_table(p) <==> p == pt.root(),
            forall|vpn: usize| mapping(*final(mem), pt.root(), vpn) is None,
            final(mem).base() == old(mem).base(),
            final(mem).num_pages() == old(mem).num_pages(),
            forall|p: usize| old(mem).has_page(p) && p != pt.root() ==> final(mem).page(p) == old(mem).page(p),
    {
        proof {
            lemma_alloc_some(alloc@);
            lemma_alloc_keeps_ready(alloc@, *mem, *mem);
            lemma_alloc_fresh(alloc@);
        }
        let frame = frame_alloc(alloc, mem).unwrap();
        let root_ppn = frame.ppn;
        let mut frames: Vec<FrameTracker> = Vec::new();
        frames.push(frame);
        let pt = PageTable { root_ppn, frames, l1: Ghost(Map::empty()), l2: Ghost(Map::empty()) };
        proof {
            lemma_alloc_keeps_ready(old(alloc)@, *old(mem), *mem);
            lemma_zero_page_words();
            let m = *mem;
            let r = root_ppn.0;
            assert forall|a: int| 0 <= a < 512 implies (pte_valid(#[trigger] entry(m, r, a)) <==> pt.l1@.contains_key(a)) by {
                assert(word_of(m.page(r), a) == 0);
                assert(((0u64 as usize) as u64) & 1u64 == 0u64) by (bit_vector);
            }
            assert(pt.frame_ppns() =~= seq![r]);
            assert forall|p: usize| pt.is_table(p) <==> pt.frame_ppns().contains(p) by {
                if pt.frame_ppns().contains(p) {
                    assert(pt.frame_ppns()[0] == r);
                }
                if pt.is_table(p) {
                    assert(pt.frame_ppns()[0] == p);
                }
            }
            assert forall|vpn: usize| mapping(m, r, vpn) is None by {
                assert(0 <= idx0(vpn) < 512);
                assert(!pte_valid(entry(m, r, idx0(vpn))));
            }
            assert(pt.wf(m));
        }
        pt
    }

    /// A table over the root page named in `satp`, owning no frames. Used to
    /// read another address space's table.
    pub fn from_token(satp: usize) -> (pt: Self)
        ensures
            pt.root() == (((satp as u64) & ppn_mask()) as usize),
    {
        PageTable {
            root_ppn: PhysPageNum(((satp as u64) & 0xfff_ffff_ffffu64) as usize),
            frames: Vec::new(),
            l1: Ghost(Map::empty()),
            l2: Ghost(Map::empty()),
        }
    }

    /// The value of the `satp` register that selects this table: SV39 mode
    /// (8 in the top four bits) and the root page number.
    pub fn token(&self) -> (satp: usize)
        ensures
            satp == ((8u64 << 60u64) | (self.root() as u64)) as usize,
    {
        ((8u64 << 60u64) | (self.root_ppn.0 as u64)) as usize
    }

    /// A well-formed table lives in well-formed memory, its table pages are
    /// in memory, the root is one of them, and mapping a page needs at most
    /// two new tables.
    pub proof fn lemma_wf_facts(&self, mem: PhysMemory)
        requires
            self.wf(mem),
        ensures
            mem.wf(),
            mem_fits_ptes(mem),
            self.is_table(self.root()),
            forall|q: usize| self.is_table(q) ==> mem.has_page(q),
            forall|v: usize| 0 <= #[trigger] frames_needed(mem, self.root(), v) <= 2,
            forall|v: usize| #[trigger] walk_in_memory(mem, self.root(), v),
            forall|v: usize| #[trigger] mapping(mem, self.root(), v) matches Some(e) ==> walk(mem, self.root(), v) == Some(e),
    {
        assert forall|v: usize| #[trigger] walk_in_memory(mem, self.root(), v) by {
            lemma_tree_walk(mem, self.root(), self.l1@, self.l2@, v);
        }
        assert forall|q: usize| self.is_table(q) implies mem.has_page(q) by {
            if q != self.root() {
                if exists|x: int| #[trigger] self.l1@.contains_key(x) && self.l1@[x] == q {
                    let x = choose|x: int| #[trigger] self.l1@.contains_key(x) && self.l1@[x] == q;
                } else {
                    let k = choose|k: (int, int)| #[trigger] self.l2@.contains_key(k) && self.l2@[k] == q;
                }
            }
        }
    }

    /// Changing only pages that are not table pages of this table keeps it
    /// well formed and keeps every mapping.
    pub proof fn lemma_other_pages(&self, mem: PhysMemory, mem2: PhysMemory)
        requires
            self.wf(mem),
            mem2.wf(),
            mem2.base() == mem.base(),
            mem2.num_pages() == mem.num_pages(),
            forall|q: usize| self.is_table(q) ==> mem2.page(q) == mem.page(q),
        ensures
            self.wf(mem2),
            forall|v: usize| #[trigger] mapping(mem2, self.root(), v) == mapping(mem, self.root(), v),
            forall|v: usize| #[trigger] frames_needed(mem2, self.root(), v) == frames_needed(mem, self.root(), v),
    {
        let root = self.root();
        let l1 = self.l1@;
        let l2 = self.l2@;
        assert(self.is_table(root));
        assert(mem2.page(root) == mem.page(root));
        assert forall|x: int| #[trigger] l1.contains_key(x) implies mem2.page(l1[x]) == mem.page(l1[x]) by {
            assert(self.is_table(l1[x]));
        }
        assert forall|k: (int, int)| #[trigger] l2.contains_key(k) implies mem2.page(l2[k]) == mem.page(l2[k]) by {
            assert(self.is_table(l2[k]));
        }
        assert forall|x: int| 0 <= x < 512 implies (pte_valid(#[trigger] entry(mem2, root, x)) <==> l1.contains_key(x)) by {
            assert(entry(mem2, root, x) == entry(mem, root, x));
        }
        assert forall|x: int, y: int| #[trigger] l1.contains_key(x) && 0 <= y < 512 implies (pte_valid(
            #[trigger] entry(mem2, l1[x], y)) <==> l2.contains_key((x, y))) by {
            assert(entry(mem2, l1[x], y) == entry(mem, l1[x], y));
        }
        assert forall|k: (int, int)| #[trigger] l2.contains_key(k) implies {
            &&& l1.contains_key(k.0)
            &&& 0 <= k.1 < 512
            &&& pte_ppn(entry(mem2, l1[k.0], k.1)) == l2[k]
            &&& mem2.has_page(l2[k])
            &&& l2[k] != root
        } by {
            assert(entry(mem2, l1[k.0], k.1) == entry(mem, l1[k.0], k.1));
        }
        assert forall|x: int| #[trigger] l1.contains_key(x) implies {
            &&& 0 <= x < 512
            &&& pte_ppn(entry(mem2, root, x)) == l1[x]
            &&& mem2.has_page(l1[x])
            &&& l1[x] != root
        } by {
            assert(entry(mem2, root, x) == entry(mem, root, x));
        }
        assert(tree_wf(mem2, root, l1, l2));
        assert forall|v: usize| #[trigger] mapping(mem2, root, v) == mapping(mem, root, v) by {
            lemma_tree_walk(mem, root, l1, l2, v);
            lemma_tree_walk(mem2, root, l1, l2, v);
            let (x, y) = (idx0(v), idx1(v));
            if l1.contains_key(x) && l2.contains_key((x, y)) {
                assert(entry(mem2, l2[(x, y)], idx2(v)) == entry(mem, l2[(x, y)], idx2(v)));
            }
        }
        assert forall|v: usize| #[trigger] frames_needed(mem2, root, v) == frames_needed(mem, root, v) by {
            let x = idx0(v);
            assert(entry(mem2, root, x) == entry(mem, root, x));
            if l1.contains_key(x) {
                assert(entry(mem2, l1[x], idx1(v)) == entry(mem, l1[x], idx1(v)));
            }
        }
    }

    /// Where the leaf entry for `vpn` is: its table page and index, or `None`
    /// when an upper-level entry on the way is not valid.
    fn find_pte(&self, mem: &PhysMemory, vpn: VirtPageNum) -> (loc: Option<(usize, usize)>)
        requires
            mem.wf(),
            walk_in_memory(*mem, self.root(), vpn.0),
        ensures
            match loc {
                Some((p, i)) => walk(*mem, self.root(), vpn.0) == Some(entry(*mem, p, i as int)) && mem.has_page(p)
                    && i < WORDS_PER_PAGE && i == idx2(vpn.0)
                    && p == pte_ppn(entry(*mem, pte_ppn(entry(*mem, self.root(), idx0(vpn.0))), idx1(vpn.0))),
                None => walk(*mem, self.root(), vpn.0) is None,
            },
    {
        let idxs = vpn.indexes();
        let e0 = PageTableEntry { bits: mem.read_word(self.root_ppn.0, idxs[0]) as usize };
        if !e0.is_valid() {
            return None;
        }
        let p1 = e0.ppn();
        let e1 = PageTableEntry { bits: mem.read_word(p1.0, idxs[1]) as usize };
        if !e1.is_valid() {
            return None;
        }
        let p2 = e1.ppn();
        Some((p2.0, idxs[2]))
    }

    /// Makes sure root entry `a` leads to a middle table, taking a zeroed
    /// frame from `alloc` when it is not valid. Returns the middle table page.
    fn ensure_l1(&mut self, alloc: &mut StackFrameAllocator, mem: &mut PhysMemory, a: usize) -> (p1: usize)
        requires
            old(self).wf(*old(mem)),
            old(self).tables_in_use(old(alloc)@),
            alloc_ready(old(alloc)@, *old(mem)),
            a < 512,
            !pte_valid(entry(*old(mem), old(self).root(), a as int)) ==> frames_left(old(alloc)@) > 0,
        ensures
            final(self).wf(*final(mem)),
            final(self).tables_in_use(final(alloc)@),
            alloc_ready(final(alloc)@, *final(mem)),
            table_grows(old(self), final(self), old(alloc)@, final(alloc)@, *old(mem), *final(mem)),
            keeps_data_pages(final(self), *old(mem), *final(mem)),
            forall|v: usize| #[trigger] walk(*final(mem), final(self).root(), v) == walk(*old(mem), old(self).root(), v),
            final(self).l1@.contains_key(a as int),
            final(self).l1@[a as int] == p1,
            final(self).l2@ == old(self).l2@,
            frames_left(final(alloc)@) == frames_left(old(alloc)@) - (if pte_valid(
                entry(*old(mem), old(self).root(), a as int)) { 0int } else { 1int }),
            !pte_valid(entry(*old(mem), old(self).root(), a as int)) ==> final(mem).page(p1) == zero_page(),
    {
        let ghost pt0 = *self;
        let ghost m0 = *mem;
        let ghost a0 = alloc@;
        let root = self.root_ppn.0;
        let e0 = PageTableEntry { bits: mem.read_word(root, a) as usize };
        assert(e0.bits == entry(*mem, root, a as int));
        if e0.is_valid() {
            assert(self.l1@.contains_key(a as int));
            return e0.ppn().0;
        }
        proof {
            lemma_alloc_some(alloc@);
            lemma_alloc_keeps_ready(alloc@, *mem, *mem);
            lemma_alloc_fresh(alloc@);
            lemma_alloc_free_shrinks(alloc@);
        }
        let frame = frame_alloc(alloc, mem).unwrap();
        let f = frame.ppn;
        proof {
            assert(!a0.in_use(f.0));
            assert(!pt0.is_table(f.0));
            assert(pt0.is_table(root));
            lemma_table_entry(m0, f.0);
        }
        let e = PageTableEntry::new(f, PTEFlags { bits: PTEFlags::V });
        let ghost mz = *mem;
        mem.write_word(root, a, e.bits as u64);
        self.frames.push(frame);
        self.l1 = Ghost(self.l1@.insert(a as int, f.0));
        proof {
            let m1 = *mem;
            assert forall|j: int| 0 <= j < 512 && j != a implies #[trigger] entry(m1, root, j) == entry(m0, root, j) by {
                assert(m1.word(root, j) == mz.word(root, j));
                assert(mz.page(root) == m0.page(root));
            }
            lemma_tree_add_l1(m0, m1, root, pt0.l1@, pt0.l2@, a as int, f.0);
            lemma_alloc_keeps_ready(a0, m0, m1);
            assert(self.frame_ppns() =~= pt0.frame_ppns().push(f.0));
            assert forall|p: usize| self.is_table(p) <==> (pt0.is_table(p) || p == f.0) by {
                if self.is_table(p) && p != root && p != f.0 {
                    if exists|x: int| #[trigger] self.l1@.contains_key(x) && self.l1@[x] == p {
                        let x = choose|x: int| #[trigger] self.l1@.contains_key(x) && self.l1@[x] == p;
                        assert(pt0.l1@.contains_key(x) && pt0.l1@[x] == p);
                    }
                }
                if pt0.is_table(p) && p != root {
                    if exists|x: int| #[trigger] pt0.l1@.contains_key(x) && pt0.l1@[x] == p {
                        let x = choose|x: int| #[trigger] pt0.l1@.contains_key(x) && pt0.l1@[x] == p;
                        assert(x != a);
                        assert(self.l1@.contains_key(x) && self.l1@[x] == p);
                    }
                }
                if p == f.0 {
                    assert(self.l1@.contains_key(a as int) && self.l1@[a as int] == p);
                }
            }
            assert forall|p: usize| self.is_table(p) <==> self.frame_ppns().contains(p) by {
                let n = pt0.frame_ppns().len();
                assert(self.frame_ppns()[n as int] == f.0);
                if p == f.0 {
                    assert(self.is_table(p));
                } else {
                    assert(self.is_table(p) == pt0.is_table(p));
                    assert(pt0.is_table(p) == pt0.frame_ppns().contains(p));
                    if pt0.frame_ppns().contains(p) {
                        let k = choose|k: int| 0 <= k < n && pt0.frame_ppns()[k] == p;
                        assert(self.frame_ppns()[k] == p);
                    }
                    if self.frame_ppns().contains(p) {
                        let k = choose|k: int| 0 <= k < self.frame_ppns().len() && self.frame_ppns()[k] == p;
                        assert(k != n);
                        assert(pt0.frame_ppns()[k] == p);
                    }
                }
            }
            assert(self.frame_ppns().no_duplicates()) by {
                assert forall|i: int, j: int| 0 <= i < j < self.frame_ppns().len()
                    implies self.frame_ppns()[i] != self.frame_ppns()[j] by {
                    if j == pt0.frame_ppns().len() {
                        assert(pt0.frame_ppns().contains(pt0.frame_ppns()[i]));
                    } else {
                        assert(pt0.frame_ppns()[i] == self.frame_ppns()[i]);
                        assert(pt0.frame_ppns()[j] == self.frame_ppns()[j]);
                    }
                }
            }
            assert(self.wf(m1));
            assert forall|q: usize| m0.has_page(q) && !self.is_table(q) implies m1.page(q) == m0.page(q) by {
                assert(q != root && q != f.0);
            }
        }
        f.0
    }

    /// Makes sure entry `b` of middle table `l1[a]` leads to a leaf table,
    /// taking a zeroed frame from `alloc` when it is not valid. Returns the
    /// leaf table page.
    fn ensure_l2(&mut self, alloc: &mut StackFrameAllocator, mem: &mut PhysMemory, a: usize, p1: usize, b: usize) -> (p2: usize)
        requires
            old(self).wf(*old(mem)),
            old(self).tables_in_use(old(alloc)@),
            alloc_ready(old(alloc)@, *old(mem)),
            old(self).l1@.contains_key(a as int),
            old(self).l1@[a as int] == p1,
            b < 512,
            !pte_valid(entry(*old(mem), p1, b as int)) ==> frames_left(old(alloc)@) > 0,
        ensures
            final(self).wf(*final(mem)),
            final(self).tables_in_use(final(alloc)@),
            alloc_ready(final(alloc)@, *final(mem)),
            table_grows(old(self), final(self), old(alloc)@, final(alloc)@, *old(mem), *final(mem)),
            keeps_data_pages(final(self), *old(mem), *final(mem)),
            forall|v: usize| #[trigger] mapping(*final(mem), final(self).root(), v) == mapping(*old(mem), old(self).root(), v),
            final(self).l1@ == old(self).l1@,
            final(self).l2@.contains_key((a as int, b as int)),
            final(self).l2@[(a as int, b as int)] == p2,
            frames_left(final(alloc)@) == frames_left(old(alloc)@) - (if pte_valid(entry(*old(mem), p1, b as int)) {
                0int
            } else {
                1int
            }),
    {
        let ghost pt0 = *self;
        let ghost m0 = *mem;
        let ghost a0 = alloc@;
        let root = self.root_ppn.0;
        let e1 = PageTableEntry { bits: mem.read_word(p1, b) as usize };
        assert(e1.bits == entry(*mem, p1, b as int));
        if e1.is_valid() {
            assert(self.l2@.contains_key((a as int, b as int)));
            return e1.ppn().0;
        }
        proof {
            lemma_alloc_some(alloc@);
            lemma_alloc_keeps_ready(alloc@, *mem, *mem);
            lemma_alloc_fresh(alloc@);
            lemma_alloc_free_shrinks(alloc@);
        }
        let frame = frame_alloc(alloc, mem).unwrap();
        let g = frame.ppn;
        proof {
            assert(!a0.in_use(g.0));
            assert(!pt0.is_table(g.0));
            assert(pt0.is_table(p1));
            assert(pt0.is_table(root));
            lemma_table_entry(m0, g.0);
        }
        let e = PageTableEntry::new(g, PTEFlags { bits: PTEFlags::V });
        let ghost mz = *mem;
        mem.write_word(p1, b, e.bits as u64);
        self.frames.push(frame);
        self.l2 = Ghost(self.l2@.insert((a as int, b as int), g.0));
        proof {
            let m1 = *mem;
            assert forall|j: int| 0 <= j < 512 && j != b implies #[trigger] entry(m1, p1, j) == entry(m0, p1, j) by {
                assert(m1.word(p1, j) == mz.word(p1, j));
                assert(mz.page(p1) == m0.page(p1));
            }
            lemma_tree_add_l2(m0, m1, root, pt0.l1@, pt0.l2@, a as int, b as int, g.0);
            lemma_alloc_keeps_ready(a0, m0, m1);
            assert(self.frame_ppns() =~= pt0.frame_ppns().push(g.0));
            let k0 = (a as int, b as int);
            assert forall|p: usize| self.is_table(p) <==> (pt0.is_table(p) || p == g.0) by {
                if self.is_table(p) && p != root && p != g.0 {
                    if exists|k: (int, int)| #[trigger] self.l2@.contains_key(k) && self.l2@[k] == p {
                        let k = choose|k: (int, int)| #[trigger] self.l2@.contains_key(k) && self.l2@[k] == p;
                        assert(pt0.l2@.contains_key(k) && pt0.l2@[k] == p);
                    }
                }
                if pt0.is_table(p) && p != root {
                    if exists|k: (int, int)| #[trigger] pt0.l2@.contains_key(k) && pt0.l2@[k] == p {
                        let k = choose|k: (int, int)| #[trigger] pt0.l2@.contains_key(k) && pt0.l2@[k] == p;
                        assert(k != k0);
                        assert(self.l2@.contains_key(k) && self.l2@[k] == p);
                    }
                }
                if p == g.0 {
                    assert(self.l2@.contains_key(k0) && self.l2@[k0] == p);
                }
            }
            assert forall|p: usize| self.is_table(p) <==> self.frame_ppns().contains(p) by {
                let n = pt0.frame_ppns().len();
                assert(self.frame_ppns()[n as int] == g.0);
                if p == g.0 {
                    assert(self.is_table(p));
                } else {
                    assert(self.is_table(p) == pt0.is_table(p));
                    assert(pt0.is_table(p) == pt0.frame_ppns().contains(p));
                    if pt0.frame_ppns().contains(p) {
                        let k = choose|k: int| 0 <= k < n && pt0.frame_ppns()[k] == p;
                        assert(self.frame_ppns()[k] == p);
                    }
                    if self.frame_ppns().contains(p) {
                        let k = choose|k: int| 0 <= k < self.frame_ppns().len() && self.frame_ppns()[k] == p;
                        assert(k != n);
                        assert(pt0.frame_ppns()[k] == p);
                    }
                }
            }
            assert(self.frame_ppns().no_duplicates()) by {
                assert forall|i: int, j: int| 0 <= i < j < self.frame_ppns().len()
                    implies self.frame_ppns()[i] != self.frame_ppns()[j] by {
                    if j == pt0.frame_ppns().len() {
                        assert(pt0.frame_ppns().contains(pt0.frame_ppns()[i]));
                    } else {
                        assert(pt0.frame_ppns()[i] == self.frame_ppns()[i]);
                        assert(pt0.frame_ppns()[j] == self.frame_ppns()[j]);
                    }
                }
            }
            assert(self.wf(m1));
            assert forall|q: usize| m0.has_page(q) && !self.is_table(q) implies m1.page(q) == m0.page(q) by {
                assert(q != p1 && q != g.0);
            }
        }
        g.0
    }

    /// Where the leaf entry for `vpn` is, as its table page and index,
    /// adding the middle and leaf tables on the way that do not exist yet.
    fn find_pte_create(&mut self, alloc: &mut StackFrameAllocator, mem: &mut PhysMemory, vpn: VirtPageNum) -> (loc: (usize, usize))
        requires
            old(self).wf(*old(mem)),
            old(self).tables_in_use(old(alloc)@),
            alloc_ready(old(alloc)@, *old(mem)),
            frames_needed(*old(mem), old(self).root(), vpn.0) <= frames_left(old(alloc)@),
        ensures
            final(self).wf(*final(mem)),
            final(self).tables_in_use(final(alloc)@),
            alloc_ready(final(alloc)@, *final(mem)),
            table_grows(old(self), final(self), old(alloc)@, final(alloc)@, *old(mem), *final(mem)),
            keeps_data_pages(final(self), *old(mem), *final(mem)),
            forall|v: usize| #[trigger] mapping(*final(mem), final(self).root(), v) == mapping(*old(mem), old(self).root(), v),
            frames_left(final(alloc)@) == frames_left(old(alloc)@) - frames_needed(*old(mem), old(self).root(), vpn.0),
            final(self).l2@.contains_key((idx0(vpn.0), idx1(vpn.0))),
            final(self).l2@[(idx0(vpn.0), idx1(vpn.0))] == loc.0,
            loc.1 == idx2(vpn.0),
    {
        let ghost m0 = *mem;
        let ghost a0 = alloc@;
        let ghost pt0 = *self;
        let idxs = vpn.indexes();
        let p1 = self.ensure_l1(alloc, mem, idxs[0]);
        let ghost m1 = *mem;
        let ghost a1 = alloc@;
        let ghost pt1 = *self;
        proof {
            let r = pt0.root();
            if !pte_valid(entry(m0, r, idx0(vpn.0))) {
                lemma_zeroed_entries(m1, p1);
                assert(!pte_valid(entry(m1, p1, idx1(vpn.0))));
            } else {
                assert(pt0.l1@[idx0(vpn.0)] == pte_ppn(entry(m0, r, idx0(vpn.0))));
            }
        }
        let p2 = self.ensure_l2(alloc, mem, idxs[0], p1, idxs[1]);
        proof {
            let m2 = *mem;
            let a2 = alloc@;
            assert forall|v: usize| #[trigger] mapping(m2, self.root(), v) == mapping(m0, pt0.root(), v) by {
                assert(walk(m1, pt1.root(), v) == walk(m0, pt0.root(), v));
                assert(mapping(m2, self.root(), v) == mapping(m1, pt1.root(), v));
            }
            assert forall|p: usize| self.is_table(p) && !pt0.is_table(p) implies a0.is_free(p) && a2.in_use(p) by {
                if pt1.is_table(p) {
                    assert(a1.in_use(p));
                } else {
                    assert(a1.is_free(p));
                }
            }
            assert forall|q: usize| m0.has_page(q) && !self.is_table(q) implies m2.page(q) == m0.page(q) by {
                assert(!pt1.is_table(q));
            }
        }
        (p2, idxs[2])
    }

    /// Maps page `vpn` to frame `ppn` with `flags` and the valid flag,
    /// adding the tables on the way that do not exist yet. The page must not
    /// be mapped, and the allocator must have the frames the new tables need.
    pub fn map(
        &mut self,
        alloc: &mut StackFrameAllocator,
        mem: &mut PhysMemory,
        vpn: VirtPageNum,
        ppn: PhysPageNum,
        flags: PTEFlags,
    )
        requires
            old(self).wf(*old(mem)),
            old(self).tables_in_use(old(alloc)@),
            alloc_ready(old(alloc)@, *old(mem)),
            mapping(*old(mem), old(self).root(), vpn.0) is None,
            frames_needed(*old(mem), old(self).root(), vpn.0) <= frames_left(old(alloc)@),
        ensures
            final(self).wf(*final(mem)),
            final(self).tables_in_use(final(alloc)@),
            alloc_ready(final(alloc)@, *final(mem)),
            table_grows(old(self), final(self), old(alloc)@, final(alloc)@, *old(mem), *final(mem)),
            keeps_data_pages(final(self), *old(mem), *final(mem)),
            frames_left(final(alloc)@) == frames_left(old(alloc)@) - frames_needed(*old(mem), old(self).root(), vpn.0),
            remapped(*old(mem), *final(mem), final(self).root(), vpn.0, Some(pte_bits(ppn.0, flags.bits | PTEFlags::V))),
    {
        let ghost m0 = *mem;
        let ghost pt0 = *self;
        let (p2, i2) = self.find_pte_create(alloc, mem, vpn);
        let ghost m1 = *mem;
        let e = PageTableEntry::new(ppn, flags.union(PTEFlags { bits: PTEFlags::V }));
        proof {
            let k = (idx0(vpn.0), idx1(vpn.0));
            lemma_tree_walk(m1, self.root(), self.l1@, self.l2@, vpn.0);
            assert(mapping(m1, self.root(), vpn.0) is None);
            assert(self.is_table(p2));
            lemma_usize_u64(e.bits);
            lemma_valid_flag(ppn.0, flags.bits);
        }
        mem.write_word(p2, i2, e.bits as u64);
        proof {
            let m2 = *mem;
            let k = (idx0(vpn.0), idx1(vpn.0));
            assert forall|j: int| 0 <= j < 512 && j != i2 implies #[trigger] entry(m2, p2, j) == entry(m1, p2, j) by {
                assert(m2.word(p2, j) == m1.word(p2, j));
            }
            lemma_tree_write_leaf(m1, m2, self.root(), self.l1@, self.l2@, k, i2 as int, e.bits);
            assert(self.wf(m2));
            assert forall|v: usize| #[trigger] mapping(m2, self.root(), v) == if same_slot(v, vpn.0) {
                Some(pte_bits(ppn.0, flags.bits | PTEFlags::V))
            } else {
                mapping(m0, pt0.root(), v)
            } by {
                assert(walk(m2, self.root(), v) == if (idx0(v), idx1(v)) == k && idx2(v) == i2 {
                    Some(e.bits)
                } else {
                    walk(m1, self.root(), v)
                });
                assert(mapping(m1, self.root(), v) == mapping(m0, pt0.root(), v));
            }
            assert forall|q: usize| m0.has_page(q) && !self.is_table(q) implies m2.page(q) == m0.page(q) by {
                assert(q != p2);
                assert(m1.page(q) == m0.page(q));
            }
        }
    }

    /// Removes the mapping of page `vpn`, which must be mapped.
    pub fn unmap(&mut self, mem: &mut PhysMemory, vpn: VirtPageNum)
        requires
            old(self).wf(*old(mem)),
            mapping(*old(mem), old(self).root(), vpn.0) is Some,
        ensures
            *final(self) == *old(self),
            final(self).wf(*final(mem)),
            final(mem).base() == old(mem).base(),
            final(mem).num_pages() == old(mem).num_pages(),
            forall|q: usize| old(mem).has_page(q) && !old(self).is_table(q) ==> final(mem).page(q) == old(mem).page(q),
            remapped(*old(mem), *final(mem), final(self).root(), vpn.0, None),
    {
        let ghost m0 = *mem;
        proof {
            lemma_tree_walk(m0, self.root(), self.l1@, self.l2@, vpn.0);
        }
        let (p2, i2) = self.find_pte(mem, vpn).unwrap();
        proof {
            let k = (idx0(vpn.0), idx1(vpn.0));
            assert(self.l2@.contains_key(k));
            assert(self.is_table(p2));
            lemma_zero_entry_invalid();
            lemma_usize_u64(0usize);
        }
        mem.write_word(p2, i2, 0u64);
        proof {
            let m2 = *mem;
            let k = (idx0(vpn.0), idx1(vpn.0));
            assert forall|j: int| 0 <= j < 512 && j != i2 implies #[trigger] entry(m2, p2, j) == entry(m0, p2, j) by {
                assert(m2.word(p2, j) == m0.word(p2, j));
            }
            assert(entry(m2, p2, i2 as int) == 0usize);
            lemma_tree_write_leaf(m0, m2, self.root(), self.l1@, self.l2@, k, i2 as int, 0usize);
            assert forall|v: usize| #[trigger] mapping(m2, self.root(), v) == if same_slot(v, vpn.0) {
                None
            } else {
                mapping(m0, self.root(), v)
            } by {
                assert(walk(m2, self.root(), v) == if (idx0(v), idx1(v)) == k && idx2(v) == i2 {
                    Some(0usize)
                } else {
                    walk(m0, self.root(), v)
                });
            }
        }
    }

    /// The leaf entry for `vpn`, or `None` when an upper-level entry on the
    /// way is not valid.
    pub fn translate(&self, mem: &PhysMemory, vpn: VirtPageNum) -> (pte: Option<PageTableEntry>)
        requires
            mem.wf(),
            walk_in_memory(*mem, self.root(), vpn.0),
        ensures
            match walk(*mem, self.root(), vpn.0) {
                Some(e) => pte matches Some(p) && p.bits == e,
                None => pte is None,
            },
    {
        match self.find_pte(mem, vpn) {
            Some((p, i)) => Some(PageTableEntry { bits: mem.read_word(p, i) as usize }),
            None => None,
        }
    }
}

} // verus!
