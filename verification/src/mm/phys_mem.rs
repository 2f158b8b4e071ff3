//! A model of the machine's physical memory: a contiguous run of 4 KiB
//! frames starting at a base page number.
//!
//! The kernel reaches frames through its identity mapping; here every frame
//! is an owned byte vector, so page tables and frame contents are read and
//! written through checked operations.
use vstd::prelude::*;
use crate::config::PAGE_SIZE;

verus! {

/// Number of 64-bit words in a page.
pub const WORDS_PER_PAGE: usize = 512;

/// The little-endian 64-bit word at word index `idx` of a page.
pub open spec fn word_of(page: Seq<u8>, idx: int) -> u64 {
    vstd::bytes::spec_u64_from_le_bytes(page.subrange(8 * idx, 8 * idx + 8))
}

/// A page whose every byte is zero.
pub open spec fn zero_page() -> Seq<u8> {
    Seq::new(PAGE_SIZE as nat, |i: int| 0u8)
}

/// Every word of a zeroed page is zero.
pub proof fn lemma_zero_page_words()
    ensures
        forall|j: int| 0 <= j < WORDS_PER_PAGE ==> #[trigger] word_of(zero_page(), j) == 0,
{
    vstd::bytes::lemma_auto_spec_u64_to_from_le_bytes();
    vstd::bytes::spec_u64_to_le_bytes_to_open(0u64);
    let z = vstd::bytes::spec_u64_to_le_bytes_open(0u64);
    assert((0u64 & 0xff) as u8 == 0u8) by (bit_vector);
    assert(((0u64 >> 8) & 0xff) as u8 == 0u8) by (bit_vector);
    assert(((0u64 >> 16) & 0xff) as u8 == 0u8) by (bit_vector);
    assert(((0u64 >> 24) & 0xff) as u8 == 0u8) by (bit_vector);
    assert(((0u64 >> 32) & 0xff) as u8 == 0u8) by (bit_vector);
    assert(((0u64 >> 40) & 0xff) as u8 == 0u8) by (bit_vector);
    assert(((0u64 >> 48) & 0xff) as u8 == 0u8) by (bit_vector);
    assert(((0u64 >> 56) & 0xff) as u8 == 0u8) by (bit_vector);
    assert forall|j: int| 0 <= j < WORDS_PER_PAGE implies #[trigger] word_of(zero_page(), j) == 0 by {
        assert(zero_page().subrange(8 * j, 8 * j + 8) =~= z);
    }
}

/// Physical memory: frames `base .. base + pages.len()`.
pub struct PhysMemory {
    base: usize,
    pages: Vec<Vec<u8>>,
}

impl PhysMemory {
    /// First page number held.
    pub closed spec fn base(&self) -> usize {
        self.base
    }

    /// Number of frames held.
    pub closed spec fn num_pages(&self) -> nat {
        self.pages@.len()
    }

    /// Every frame is exactly one page long and the run fits below `usize::MAX`.
    pub closed spec fn wf(&self) -> bool {
        &&& self.base + self.pages@.len() <= usize::MAX
        &&& forall|i: int| 0 <= i < self.pages@.len() ==> #[trigger] self.pages@[i]@.len() == PAGE_SIZE
    }

    /// Whether frame `ppn` exists.
    pub open spec fn has_page(&self, ppn: usize) -> bool {
        self.base() <= ppn < self.base() + self.num_pages()
    }

    /// The bytes of frame `ppn`.
    pub closed spec fn page(&self, ppn: usize) -> Seq<u8> {
        self.pages@[ppn - self.base]@
    }

    /// The word at index `idx` of frame `ppn`.
    pub open spec fn word(&self, ppn: usize, idx: int) -> u64 {
        word_of(self.page(ppn), idx)
    }

    /// Every page of well-formed memory is a page long.
    pub proof fn lemma_page_len(&self, ppn: usize)
        requires
            self.wf(),
            self.has_page(ppn),
        ensures
            self.page(ppn).len() == PAGE_SIZE,
    {
        assert(self.pages@[ppn - self.base]@.len() == PAGE_SIZE);
    }

    /// Memory of `num_pages` zeroed frames starting at frame `base`.
    pub fn new(base: usize, num_pages: usize) -> (mem: Self)
        requires
            base + num_pages <= usize::MAX,
        ensures
            mem.wf(),
            mem.base() == base,
            mem.num_pages() == num_pages,
            forall|p: usize| mem.has_page(p) ==> mem.page(p) == zero_page(),
    {
        let mut pages: Vec<Vec<u8>> = Vec::new();
        let mut i: usize = 0;
        while i < num_pages
            invariant
                i <= num_pages,
                pages@.len() == i,
                forall|j: int| 0 <= j < i ==> #[trigger] pages@[j]@ == zero_page(),
            decreases num_pages - i,
        {
            let page = zeroed_page();
            pages.push(page);
            i = i + 1;
        }
        PhysMemory { base, pages }
    }

    /// Fills frame `ppn` with zeros.
    pub fn zero(&mut self, ppn: usize)
        requires
            old(self).wf(),
            old(self).has_page(ppn),
        ensures
            final(self).wf(),
            final(self).base() == old(self).base(),
            final(self).num_pages() == old(self).num_pages(),
            final(self).page(ppn) == zero_page(),
            forall|p: usize| old(self).has_page(p) && p != ppn ==> final(self).page(p) == old(self).page(p),
    {
        let i = ppn - self.base;
        let page = zeroed_page();
        self.pages.set(i, page);
    }

    /// Reads the little-endian word at index `idx` of frame `ppn`.
    pub fn read_word(&self, ppn: usize, idx: usize) -> (w: u64)
        requires
            self.wf(),
            self.has_page(ppn),
            idx < WORDS_PER_PAGE,
        ensures
            w == self.word(ppn, idx as int),
    {
        let page = &self.pages[ppn - self.base];
        let bytes = vstd::slice::slice_subrange(page.as_slice(), 8 * idx, 8 * idx + 8);
        vstd::bytes::u64_from_le_bytes(bytes)
    }

    /// Writes `w` as the little-endian word at index `idx` of frame `ppn`.
    pub fn write_word(&mut self, ppn: usize, idx: usize, w: u64)
        requires
            old(self).wf(),
            old(self).has_page(ppn),
            idx < WORDS_PER_PAGE,
        ensures
            final(self).wf(),
            final(self).base() == old(self).base(),
            final(self).num_pages() == old(self).num_pages(),
            final(self).word(ppn, idx as int) == w,
            forall|j: int| 0 <= j < WORDS_PER_PAGE && j != idx ==> #[trigger] final(self).word(ppn, j) == old(self).word(ppn, j),
            forall|p: usize| old(self).has_page(p) && p != ppn ==> final(self).page(p) == old(self).page(p),
    {
        let i = ppn - self.base;
        let bytes = vstd::bytes::u64_to_le_bytes(w);
        proof {
            vstd::bytes::lemma_auto_spec_u64_to_from_le_bytes();
        }
        let mut page: Vec<u8> = Vec::new();
        std::mem::swap(&mut page, &mut self.pages[i]);
        let ghost old_page = page@;
        let mut k: usize = 0;
        while k < 8
            invariant
                k <= 8,
                bytes@.len() == 8,
                page@.len() == old_page.len(),
                old_page.len() == PAGE_SIZE,
                idx < WORDS_PER_PAGE,
                forall|m: int| 0 <= m < 8 * idx || 8 * idx + 8 <= m < PAGE_SIZE ==> #[trigger] page@[m] == old_page[m],
                forall|m: int| 0 <= m < k ==> #[trigger] page@[8 * idx + m] == bytes@[m],
            decreases 8 - k,
        {
            page.set(8 * idx + k, bytes[k]);
            k = k + 1;
        }
        proof {
            assert forall|m: int| 0 <= m < 8 implies
                #[trigger] page@.subrange(8 * idx as int, 8 * idx as int + 8)[m] == bytes@[m] by {
                assert(page@[8 * idx + m] == bytes@[m]);
            }
            assert(page@.subrange(8 * idx as int, 8 * idx as int + 8) =~= bytes@);
            assert forall|j: int| 0 <= j < WORDS_PER_PAGE && j != idx implies
                #[trigger] word_of(page@, j) == word_of(old_page, j) by {
                assert(page@.subrange(8 * j, 8 * j + 8) =~= old_page.subrange(8 * j, 8 * j + 8));
            }
        }
        self.pages.set(i, page);
    }

    /// Copies `data` into frame `ppn` starting at byte `offset`.
    pub fn write_bytes(&mut self, ppn: usize, offset: usize, data: &[u8])
        requires
            old(self).wf(),
            old(self).has_page(ppn),
            offset + data@.len() <= PAGE_SIZE,
        ensures
            final(self).wf(),
            final(self).base() == old(self).base(),
            final(self).num_pages() == old(self).num_pages(),
            final(self).page(ppn) == old(self).page(ppn).subrange(0, offset as int) + data@
                + old(self).page(ppn).subrange(offset + data@.len(), PAGE_SIZE as int),
            forall|p: usize| old(self).has_page(p) && p != ppn ==> final(self).page(p) == old(self).page(p),
    {
        let i = ppn - self.base;
        let mut page: Vec<u8> = Vec::new();
        std::mem::swap(&mut page, &mut self.pages[i]);
        let ghost old_page = page@;
        let mut k: usize = 0;
        while k < data.len()
            invariant
                k <= data@.len(),
                offset + data@.len() <= PAGE_SIZE,
                page@.len() == old_page.len(),
                old_page.len() == PAGE_SIZE,
                forall|m: int| 0 <= m < offset || offset + k <= m < PAGE_SIZE ==> #[trigger] page@[m] == old_page[m],
                forall|m: int| 0 <= m < k ==> #[trigger] page@[offset + m] == data@[m],
            decreases data@.len() - k,
        {
            page.set(offset + k, data[k]);
            k = k + 1;
        }
        proof {
            let expected = old_page.subrange(0, offset as int) + data@
                + old_page.subrange(offset + data@.len(), PAGE_SIZE as int);
            assert forall|m: int| 0 <= m < PAGE_SIZE implies #[trigger] page@[m] == expected[m] by {
                if offset <= m < offset + data@.len() {
                    assert(page@[offset + (m - offset)] == data@[m - offset]);
                }
            }
            assert(page@ =~= expected);
        }
        self.pages.set(i, page);
    }

    /// Copies the bytes of frame `ppn`.
    pub fn read_page(&self, ppn: usize) -> (bytes: Vec<u8>)
        requires
            self.wf(),
            self.has_page(ppn),
        ensures
            bytes@ == self.page(ppn),
    {
        self.pages[ppn - self.base].clone()
    }
}

/// A freshly zeroed page.
fn zeroed_page() -> (page: Vec<u8>)
    ensures
        page@ == zero_page(),
{
    let mut page: Vec<u8> = Vec::new();
    let mut i: usize = 0;
    while i < PAGE_SIZE
        invariant
            i <= PAGE_SIZE,
            page@ == Seq::new(i as nat, |k: int| 0u8),
        decreases PAGE_SIZE - i,
    {
        page.push(0);
        i = i + 1;
    }
    page
}

} // verus!
