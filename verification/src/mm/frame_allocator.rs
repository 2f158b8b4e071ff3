//! Allocation of physical frames.
//!
//! Frames are handed out from a stack of recycled frames first and then
//! from a bump pointer that runs from the first free frame after the kernel
//! image to the end of memory.
use vstd::prelude::*;
use crate::mm::address::PhysPageNum;
use crate::mm::phys_mem::{PhysMemory, zero_page};

verus! {

/// Owner of one physical frame, zeroed when it was created.
pub struct FrameTracker {
    pub ppn: PhysPageNum,
}

impl FrameTracker {
    /// Takes ownership of frame `ppn` and clears its contents.
    pub fn new(ppn: PhysPageNum, mem: &mut PhysMemory) -> (frame: Self)
        requires
            old(mem).wf(),
            old(mem).has_page(ppn.0),
        ensures
            frame.ppn == ppn,
            final(mem).wf(),
            final(mem).base() == old(mem).base(),
            final(mem).num_pages() == old(mem).num_pages(),
            final(mem).page(ppn.0) == zero_page(),
            forall|p: usize| old(mem).has_page(p) && p != ppn.0 ==> final(mem).page(p) == old(mem).page(p),
    {
        mem.zero(ppn.0);
        Self { ppn }
    }
}

/// Abstract state of a frame allocator.
pub ghost struct FrameAllocatorModel {
    /// Next frame the bump pointer hands out.
    pub current: usize,
    /// One past the last frame of the managed range.
    pub end: usize,
    /// Recycled frames; the last one is handed out first.
    pub recycled: Seq<usize>,
}

impl FrameAllocatorModel {
    /// Frames that have been handed out and not given back: below the bump
    /// pointer and not on the recycled stack.
    pub open spec fn in_use(self, ppn: usize) -> bool {
        ppn < self.current && !self.recycled.contains(ppn)
    }

    /// Frames that a later allocation may return.
    pub open spec fn is_free(self, ppn: usize) -> bool {
        self.recycled.contains(ppn) || (self.current <= ppn && ppn < self.end)
    }

    /// The state and result of an allocation.
    pub open spec fn alloc_spec(self) -> (FrameAllocatorModel, Option<usize>) {
        if self.recycled.len() > 0 {
            (FrameAllocatorModel { recycled: self.recycled.drop_last(), ..self }, Some(self.recycled.last()))
        } else if self.current == self.end {
            (self, None)
        } else {
            (FrameAllocatorModel { current: (self.current + 1) as usize, ..self }, Some(self.current))
        }
    }

    /// The state after frame `ppn` is given back.
    pub open spec fn dealloc_spec(self, ppn: usize) -> FrameAllocatorModel {
        FrameAllocatorModel { recycled: self.recycled.push(ppn), ..self }
    }

    /// Recycled frames are distinct, were handed out before, and the bump
    /// pointer never passes the end of the range.
    pub open spec fn wf(self) -> bool {
        &&& self.current <= self.end
        &&& self.recycled.no_duplicates()
        &&& forall|i: int| 0 <= i < self.recycled.len() ==> #[trigger] self.recycled[i] < self.current
    }
}

/// Stack-style frame allocator.
pub struct StackFrameAllocator {
    current: usize,
    end: usize,
    recycled: Vec<usize>,
}

impl View for StackFrameAllocator {
    type V = FrameAllocatorModel;

    closed spec fn view(&self) -> FrameAllocatorModel {
        FrameAllocatorModel { current: self.current, end: self.end, recycled: self.recycled@ }
    }
}

impl StackFrameAllocator {
    /// An allocator with an empty range.
    pub fn new() -> (a: Self)
        ensures
            a@.wf(),
            a@.current == 0,
            a@.end == 0,
            a@.recycled == Seq::<usize>::empty(),
    {
        StackFrameAllocator { current: 0, end: 0, recycled: Vec::new() }
    }

    /// Manages frames `l .. r`.
    pub fn init(&mut self, l: PhysPageNum, r: PhysPageNum)
        requires
            old(self)@.wf(),
            l.0 <= r.0,
            forall|i: int| 0 <= i < old(self)@.recycled.len() ==> #[trigger] old(self)@.recycled[i] < l.0,
        ensures
            final(self)@.wf(),
            final(self)@ == (FrameAllocatorModel { current: l.0, end: r.0, ..old(self)@ }),
    {
        self.current = l.0;
        self.end = r.0;
    }

    /// Hands out a recycled frame if there is one, else the next fresh frame,
    /// or `None` when the range is exhausted.
    pub fn allocate(&mut self) -> (ppn: Option<PhysPageNum>)
        requires
            old(self)@.wf(),
        ensures
            final(self)@.wf(),
            final(self)@ == old(self)@.alloc_spec().0,
            ppn matches Some(p) ==> old(self)@.alloc_spec().1 == Some(p.0),
            ppn is None ==> old(self)@.alloc_spec().1 is None,
    {
        if let Some(ppn) = self.recycled.pop() {
            proof {
                assert(self.recycled@ =~= old(self).recycled@.drop_last());
                assert forall|i: int, j: int| 0 <= i < j < self.recycled@.len()
                    implies self.recycled@[i] != self.recycled@[j] by {
                    assert(old(self).recycled@[i] == self.recycled@[i]);
                    assert(old(self).recycled@[j] == self.recycled@[j]);
                }
            }
            Some(PhysPageNum(ppn))
        } else if self.current == self.end {
            None
        } else {
            self.current += 1;
            Some(PhysPageNum(self.current - 1))
        }
    }

    /// Number of frames that can still be handed out: the recycled ones and
    /// those the bump pointer has not reached.
    pub fn free_frames(&self) -> (n: usize)
        requires
            self@.wf(),
        ensures
            n as int == self@.recycled.len() + (self@.end - self@.current),
    {
        proof {
            assert(self@.recycled.no_duplicates());
            lemma_recycled_fit(self@);
        }
        self.recycled.len() + (self.end - self.current)
    }

    /// Gives frame `ppn` back. The frame must be in use.
    pub fn dealloc(&mut self, ppn: PhysPageNum)
        requires
            old(self)@.wf(),
            old(self)@.in_use(ppn.0),
        ensures
            final(self)@.wf(),
            final(self)@ == old(self)@.dealloc_spec(ppn.0),
    {
        let ppn = ppn.0;
        self.recycled.push(ppn);
        proof {
            assert forall|a: int, b: int| 0 <= a < b < self.recycled@.len()
                implies self.recycled@[a] != self.recycled@[b] by {
                if b == old(self).recycled@.len() {
                    assert(old(self).recycled@[a] == self.recycled@[a]);
                }
            }
        }
    }
}

/// The recycled frames are distinct numbers below the bump pointer, so there
/// are no more of them than frames below it.
proof fn lemma_recycled_fit(a: FrameAllocatorModel)
    requires
        a.wf(),
    ensures
        a.recycled.len() <= a.current,
{
    let s = a.recycled.to_set();
    a.recycled.unique_seq_to_set();
    assert forall|x: usize| s.contains(x) implies vstd::set_lib::set_int_range(0, a.current as int).contains(x as int) by {
        let k = choose|k: int| 0 <= k < a.recycled.len() && a.recycled[k] == x;
        assert(a.recycled[k] < a.current);
    }
    let m = s.map(|x: usize| x as int);
    assert(m.subset_of(vstd::set_lib::set_int_range(0, a.current as int)));
    vstd::set_lib::lemma_int_range(0, a.current as int);
    vstd::set_lib::lemma_len_subset(m, vstd::set_lib::set_int_range(0, a.current as int));
    assert(vstd::relations::injective(|x: usize| x as int));
    vstd::set_lib::lemma_map_size(s, m, |x: usize| x as int);
}

/// Law: a frame that was just given back is the next one handed out.
pub proof fn lemma_dealloc_then_alloc(a: FrameAllocatorModel, ppn: usize)
    requires
        a.wf(),
        a.in_use(ppn),
    ensures
        a.dealloc_spec(ppn).alloc_spec().1 == Some(ppn),
        a.dealloc_spec(ppn).alloc_spec().0 == a,
{
    assert(a.dealloc_spec(ppn).recycled.drop_last() =~= a.recycled);
}

/// Law: allocation never hands out a frame that is in use; the frame it
/// returns was free and is in use afterwards, and no other frame changes
/// between in use and not in use.
pub proof fn lemma_alloc_fresh(a: FrameAllocatorModel)
    requires
        a.wf(),
    ensures
        ({
            let (b, r) = a.alloc_spec();
            &&& b.wf()
            &&& r matches Some(p) ==> !a.in_use(p) && a.is_free(p) && b.in_use(p) && !b.is_free(p)
            &&& forall|q: usize| r != Some(q) ==> (b.in_use(q) == a.in_use(q))
        }),
{
    let (b, r) = a.alloc_spec();
    if a.recycled.len() > 0 {
        let p = a.recycled.last();
        assert(a.recycled.contains(p));
        assert(b.recycled =~= a.recycled.drop_last());
        assert forall|q: usize| r != Some(q) implies (b.in_use(q) == a.in_use(q)) by {
            if a.recycled.contains(q) {
                let k = choose|k: int| 0 <= k < a.recycled.len() && a.recycled[k] == q;
                assert(k != a.recycled.len() - 1);
                assert(b.recycled[k] == q);
            }
            if b.recycled.contains(q) {
                let k = choose|k: int| 0 <= k < b.recycled.len() && b.recycled[k] == q;
                assert(a.recycled[k] == q);
            }
        }
        if b.recycled.contains(p) {
            let k = choose|k: int| 0 <= k < b.recycled.len() && b.recycled[k] == p;
            assert(a.recycled[k] == a.recycled[a.recycled.len() - 1]);
        }
        assert(a.recycled[a.recycled.len() - 1] < a.current);
        assert forall|i: int, j: int| 0 <= i < j < b.recycled.len() implies b.recycled[i] != b.recycled[j] by {
            assert(a.recycled[i] == b.recycled[i]);
            assert(a.recycled[j] == b.recycled[j]);
        }
        assert forall|i: int| 0 <= i < b.recycled.len() implies #[trigger] b.recycled[i] < b.current by {
            assert(a.recycled[i] == b.recycled[i]);
        }
    } else if a.current != a.end {
        assert forall|q: usize| r != Some(q) implies (b.in_use(q) == a.in_use(q)) by {}
        assert(!a.recycled.contains(a.current));
    }
}

/// Law: a frame that is given back is free and no longer in use, and no
/// other frame changes.
pub proof fn lemma_dealloc_frees(a: FrameAllocatorModel, ppn: usize)
    requires
        a.wf(),
        a.in_use(ppn),
    ensures
        a.dealloc_spec(ppn).wf(),
        !a.dealloc_spec(ppn).in_use(ppn),
        a.dealloc_spec(ppn).is_free(ppn),
        forall|q: usize| q != ppn ==> (a.dealloc_spec(ppn).in_use(q) == a.in_use(q)),
{
    let b = a.dealloc_spec(ppn);
    assert(b.recycled[b.recycled.len() - 1] == ppn);
    assert forall|q: usize| q != ppn implies (b.in_use(q) == a.in_use(q)) by {
        if b.recycled.contains(q) {
            let k = choose|k: int| 0 <= k < b.recycled.len() && b.recycled[k] == q;
            assert(k < a.recycled.len());
            assert(a.recycled[k] == q);
        }
        if a.recycled.contains(q) {
            let k = choose|k: int| 0 <= k < a.recycled.len() && a.recycled[k] == q;
            assert(b.recycled[k] == q);
        }
    }
    assert forall|i: int, j: int| 0 <= i < j < b.recycled.len() implies b.recycled[i] != b.recycled[j] by {
        if j == a.recycled.len() {
            assert(b.recycled[i] == a.recycled[i]);
            assert(a.recycled.contains(a.recycled[i]));
        } else {
            assert(b.recycled[i] == a.recycled[i]);
            assert(b.recycled[j] == a.recycled[j]);
        }
    }
}

/// Allocates a frame and clears it.
pub fn frame_alloc(allocator: &mut StackFrameAllocator, mem: &mut PhysMemory) -> (frame: Option<FrameTracker>)
    requires
        old(allocator)@.wf(),
        old(mem).wf(),
        forall|p: usize| old(allocator)@.is_free(p) ==> old(mem).has_page(p),
    ensures
        final(allocator)@.wf(),
        final(allocator)@ == old(allocator)@.alloc_spec().0,
        frame matches Some(f) ==> old(allocator)@.alloc_spec().1 == Some(f.ppn.0),
        frame is None ==> old(allocator)@.alloc_spec().1 is None,
        final(mem).wf(),
        final(mem).base() == old(mem).base(),
        final(mem).num_pages() == old(mem).num_pages(),
        frame matches Some(f) ==> final(mem).page(f.ppn.0) == zero_page(),
        forall|p: usize| old(mem).has_page(p) && (frame matches Some(f) ==> p != f.ppn.0)
            ==> final(mem).page(p) == old(mem).page(p),
{
    match allocator.allocate() {
        Some(ppn) => {
            proof {
                let a = old(allocator)@;
                if a.recycled.len() > 0 {
                    assert(a.recycled.contains(a.recycled.last()));
                }
            }
            Some(FrameTracker::new(ppn, mem))
        },
        None => None,
    }
}

/// Gives a frame back to the allocator.
pub fn frame_dealloc(allocator: &mut StackFrameAllocator, ppn: PhysPageNum)
    requires
        old(allocator)@.wf(),
        old(allocator)@.in_use(ppn.0),
    ensures
        final(allocator)@.wf(),
        final(allocator)@ == old(allocator)@.dealloc_spec(ppn.0),
{
    allocator.dealloc(ppn);
}

} // verus!
