//! Physical and virtual addresses and page numbers of the SV39 scheme.
//!
//! A physical address is 56 bits wide and a physical page number 44 bits;
//! a virtual address is 39 bits wide and a virtual page number 27 bits,
//! split into three 9-bit indexes of the three page-table levels.
use vstd::prelude::*;
use crate::config::{PAGE_SIZE, PAGE_SIZE_BITS};

verus! {

/// Width of a physical address in SV39.
pub const PA_WIDTH_SV39: usize = 56;

/// Width of a physical page number in SV39.
pub const PPN_WIDTH_SV39: usize = 44;

/// Width of a virtual address in SV39.
pub const VA_WIDTH_SV39: usize = 39;

/// Width of a virtual page number in SV39.
pub const VPN_WIDTH_SV39: usize = 27;

/// A physical address.
#[derive(Copy, Clone, Debug, PartialEq, Eq, Structural, PartialOrd, Ord)]
pub struct PhysAddr(pub usize);

/// A physical page number.
#[derive(Copy, Clone, Debug, PartialEq, Eq, Structural, PartialOrd, Ord)]
pub struct PhysPageNum(pub usize);

/// A virtual address.
#[derive(Copy, Clone, Debug, PartialEq, Eq, Structural, PartialOrd, Ord)]
pub struct VirtAddr(pub usize);

/// A virtual page number.
#[derive(Copy, Clone, Debug, PartialEq, Eq, Structural, PartialOrd, Ord)]
pub struct VirtPageNum(pub usize);

/// Number of the page that holds address `a`, rounding up.
pub open spec fn ceil_page(a: int) -> int {
    (a + PAGE_SIZE - 1) / (PAGE_SIZE as int)
}

/// Whether rounding `a` up to a page boundary fits in a `usize`.
pub open spec fn ceil_fits(a: usize) -> bool {
    a == 0 || a - 1 + PAGE_SIZE <= usize::MAX
}

proof fn lemma_offset_mask(x: usize)
    ensures
        x & 0xfff == x % 4096,
{
    assert(x & 0xfff == x % 4096) by (bit_vector);
}

impl PhysAddr {
    /// The page number of the first page boundary at or above this address.
    pub fn ceil(&self) -> (r: PhysPageNum)
        requires
            ceil_fits(self.0),
        ensures
            r.0 == ceil_page(self.0 as int),
    {
        if self.0 == 0 {
            PhysPageNum(0)
        } else {
            PhysPageNum((self.0 - 1 + PAGE_SIZE) / PAGE_SIZE)
        }
    }

    /// The page number of the page that holds this address.
    pub fn floor(&self) -> (r: PhysPageNum)
        ensures
            r.0 == self.0 / PAGE_SIZE,
    {
        PhysPageNum(self.0 / PAGE_SIZE)
    }

    /// The offset of this address inside its page.
    pub fn page_offset(&self) -> (r: usize)
        ensures
            r == self.0 % PAGE_SIZE,
    {
        proof {
            lemma_offset_mask(self.0);
        }
        self.0 & (PAGE_SIZE - 1)
    }

    /// Whether this address lies on a page boundary.
    pub fn aligned(&self) -> (r: bool)
        ensures
            r == (self.0 % PAGE_SIZE == 0),
    {
        self.page_offset() == 0
    }
}

impl VirtAddr {
    /// The page number of the first page boundary at or above this address.
    pub fn ceil(&self) -> (r: VirtPageNum)
        requires
            ceil_fits(self.0),
        ensures
            r.0 == ceil_page(self.0 as int),
    {
        if self.0 == 0 {
            VirtPageNum(0)
        } else {
            VirtPageNum((self.0 - 1 + PAGE_SIZE) / PAGE_SIZE)
        }
    }

    /// The page number of the page that holds this address.
    pub fn floor(&self) -> (r: VirtPageNum)
        ensures
            r.0 == self.0 / PAGE_SIZE,
    {
        VirtPageNum(self.0 / PAGE_SIZE)
    }

    /// The offset of this address inside its page.
    pub fn page_offset(&self) -> (r: usize)
        ensures
            r == self.0 % PAGE_SIZE,
    {
        proof {
            lemma_offset_mask(self.0);
        }
        self.0 & (PAGE_SIZE - 1)
    }

    /// Whether this address lies on a page boundary.
    pub fn aligned(&self) -> (r: bool)
        ensures
            r == (self.0 % PAGE_SIZE == 0),
    {
        self.page_offset() == 0
    }
}

impl VirtPageNum {
    /// Splits the page number into the indexes of the three page-table levels,
    /// the root level's index first.
    pub fn indexes(&self) -> (idx: [usize; 3])
        ensures
            idx@.len() == 3,
            idx@[0] == (self.0 / 262144) % 512,
            idx@[1] == (self.0 / 512) % 512,
            idx@[2] == self.0 % 512,
            forall|i: int| 0 <= i < 3 ==> idx@[i] < 512,
    {
        let vpn = self.0;
        let low = vpn & 511;
        let mid = (vpn >> 9) & 511;
        let high = (vpn >> 18) & 511;
        proof {
            assert(vpn & 511 == vpn % 512) by (bit_vector);
            assert((vpn >> 9) & 511 == (vpn / 512) % 512) by (bit_vector);
            assert((vpn >> 18) & 511 == (vpn / 262144) % 512) by (bit_vector);
        }
        [high, mid, low]
    }
}

impl From<usize> for PhysAddr {
    /// Keeps the 56 bits of a physical address.
    fn from(value: usize) -> (r: Self) {
        PhysAddr(((value as u64) & 0xff_ffff_ffff_ffffu64) as usize)
    }
}

impl vstd::std_specs::convert::FromSpecImpl<usize> for PhysAddr {
    open spec fn obeys_from_spec() -> bool {
        true
    }

    open spec fn from_spec(value: usize) -> PhysAddr {
        PhysAddr(((value as u64) & 0xff_ffff_ffff_ffffu64) as usize)
    }
}

impl From<usize> for PhysPageNum {
    /// Keeps the 44 bits of a physical page number.
    fn from(value: usize) -> (r: Self) {
        PhysPageNum(((value as u64) & 0xfff_ffff_ffffu64) as usize)
    }
}

impl vstd::std_specs::convert::FromSpecImpl<usize> for PhysPageNum {
    open spec fn obeys_from_spec() -> bool {
        true
    }

    open spec fn from_spec(value: usize) -> PhysPageNum {
        PhysPageNum(((value as u64) & 0xfff_ffff_ffffu64) as usize)
    }
}

impl From<PhysPageNum> for PhysAddr {
    /// The address of the first byte of the page.
    fn from(value: PhysPageNum) -> (r: Self) {
        PhysAddr(((value.0 as u64) << 12u64) as usize)
    }
}

impl vstd::std_specs::convert::FromSpecImpl<PhysPageNum> for PhysAddr {
    open spec fn obeys_from_spec() -> bool {
        true
    }

    open spec fn from_spec(value: PhysPageNum) -> PhysAddr {
        PhysAddr(((value.0 as u64) << 12u64) as usize)
    }
}

impl From<usize> for VirtAddr {
    /// Keeps the 39 bits of a virtual address.
    fn from(value: usize) -> (r: Self) {
        VirtAddr(((value as u64) & 0x7f_ffff_ffffu64) as usize)
    }
}

impl vstd::std_specs::convert::FromSpecImpl<usize> for VirtAddr {
    open spec fn obeys_from_spec() -> bool {
        true
    }

    open spec fn from_spec(value: usize) -> VirtAddr {
        VirtAddr(((value as u64) & 0x7f_ffff_ffffu64) as usize)
    }
}

impl From<VirtPageNum> for VirtAddr {
    /// The address of the first byte of the page.
    fn from(value: VirtPageNum) -> (r: Self) {
        VirtAddr(((value.0 as u64) << 12u64) as usize)
    }
}

impl vstd::std_specs::convert::FromSpecImpl<VirtPageNum> for VirtAddr {
    open spec fn obeys_from_spec() -> bool {
        true
    }

    open spec fn from_spec(value: VirtPageNum) -> VirtAddr {
        VirtAddr(((value.0 as u64) << 12u64) as usize)
    }
}

/// `From<usize>` keeps an address below 2^39 as it is and turns any other
/// into one below 2^39.
pub proof fn lemma_virt_addr_small(value: usize)
    ensures
        ((value as u64) & 0x7f_ffff_ffffu64) as usize <= 0x7f_ffff_ffffu64,
        (value as u64) < 0x80_0000_0000u64 ==> ((value as u64) & 0x7f_ffff_ffffu64) as usize == value,
{
    let v = value as u64;
    assert(v & 0x7f_ffff_ffffu64 <= 0x7f_ffff_ffffu64) by (bit_vector);
    assert(v < 0x80_0000_0000u64 ==> v & 0x7f_ffff_ffffu64 == v) by (bit_vector);
    assert(((value as u64) as usize) == value) by (bit_vector);
}

/// A half-open range of virtual page numbers `[l, r)`.
#[derive(Copy, Clone)]
pub struct VPNRange {
    l: VirtPageNum,
    r: VirtPageNum,
}

impl VPNRange {
    /// First page of the range.
    pub closed spec fn lo(&self) -> usize {
        self.l.0
    }

    /// One past the last page of the range.
    pub closed spec fn hi(&self) -> usize {
        self.r.0
    }

    /// The range `[start, end)`; `start` may not lie above `end`.
    pub fn new(start: VirtPageNum, end: VirtPageNum) -> (r: Self)
        requires
            start.0 <= end.0,
        ensures
            r.lo() == start.0,
            r.hi() == end.0,
    {
        VPNRange { l: start, r: end }
    }

    /// First page of the range.
    pub fn get_start(&self) -> (v: VirtPageNum)
        ensures
            v.0 == self.lo(),
    {
        self.l
    }

    /// One past the last page of the range.
    pub fn get_end(&self) -> (v: VirtPageNum)
        ensures
            v.0 == self.hi(),
    {
        self.r
    }
}

} // verus!
