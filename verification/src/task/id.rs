//! Recyclable identifiers (process ids, kernel stack ids, thread ids) and the
//! placement of kernel stacks, user stacks and trap contexts.
use vstd::prelude::*;
use crate::config::{KERNEL_STACK_SIZE, PAGE_SIZE, TRAMPOLINE, TRAP_CONTEXT_BASE, USER_STACK_SIZE};
use crate::mm::address::{PhysPageNum, VirtAddr, ceil_page};
use crate::mm::frame_allocator::StackFrameAllocator;
use crate::mm::memory_set::{MemorySet, MapPermission, MapType, frames_for, va_bits};
use crate::mm::page_table::{frames_left, mapping, pte_ppn, same_slot};
use crate::mm::phys_mem::{PhysMemory, zero_page};

verus! {

/// Abstract state of an identifier allocator.
pub ghost struct IdAllocatorModel {
    /// Next never-used identifier.
    pub current: usize,
    /// Identifiers given back; the last one is reused first.
    pub recycled: Seq<usize>,
}

impl IdAllocatorModel {
    /// Identifiers handed out and not given back.
    pub open spec fn in_use(self, id: usize) -> bool {
        id < self.current && !self.recycled.contains(id)
    }

    /// Whether an allocation can proceed without running out of identifiers.
    pub open spec fn can_alloc(self) -> bool {
        self.recycled.len() > 0 || self.current < usize::MAX
    }

    /// The state and result of an allocation.
    pub open spec fn alloc_spec(self) -> (IdAllocatorModel, usize) {
        if self.recycled.len() > 0 {
            (IdAllocatorModel { recycled: self.recycled.drop_last(), ..self }, self.recycled.last())
        } else {
            (IdAllocatorModel { current: (self.current + 1) as usize, ..self }, self.current)
        }
    }

    /// The state after `id` is given back.
    pub open spec fn dealloc_spec(self, id: usize) -> IdAllocatorModel {
        IdAllocatorModel { recycled: self.recycled.push(id), ..self }
    }

    /// Recycled identifiers are distinct and were handed out before.
    pub open spec fn wf(self) -> bool {
        &&& self.recycled.no_duplicates()
        &&& forall|i: int| 0 <= i < self.recycled.len() ==> #[trigger] self.recycled[i] < self.current
    }
}

/// Law: an identifier that was just given back is the next one handed out.
pub proof fn lemma_id_dealloc_then_alloc(a: IdAllocatorModel, id: usize)
    requires
        a.wf(),
        a.in_use(id),
    ensures
        a.dealloc_spec(id).alloc_spec().1 == id,
        a.dealloc_spec(id).alloc_spec().0 == a,
{
    assert(a.dealloc_spec(id).recycled.drop_last() =~= a.recycled);
}

/// Law: allocation never hands out an identifier that is in use; the one it
/// returns is in use afterwards, and no other identifier changes.
pub proof fn lemma_id_alloc_fresh(a: IdAllocatorModel)
    requires
        a.wf(),
        a.can_alloc(),
    ensures
        ({
            let (b, id) = a.alloc_spec();
            &&& b.wf()
            &&& !a.in_use(id)
            &&& b.in_use(id)
            &&& forall|q: usize| q != id ==> (b.in_use(q) == a.in_use(q))
        }),
{
    let (b, id) = a.alloc_spec();
    if a.recycled.len() > 0 {
        assert(a.recycled.contains(id));
        assert(b.recycled =~= a.recycled.drop_last());
        assert forall|q: usize| q != id implies (b.in_use(q) == a.in_use(q)) by {
            if a.recycled.contains(q) {
                let k = choose|k: int| 0 <= k < a.recycled.len() && a.recycled[k] == q;
                assert(b.recycled[k] == q);
            }
            if b.recycled.contains(q) {
                let k = choose|k: int| 0 <= k < b.recycled.len() && b.recycled[k] == q;
                assert(a.recycled[k] == q);
            }
        }
        if b.recycled.contains(id) {
            let k = choose|k: int| 0 <= k < b.recycled.len() && b.recycled[k] == id;
            assert(a.recycled[k] == a.recycled[a.recycled.len() - 1]);
        }
        assert(a.recycled[a.recycled.len() - 1] < a.current);
        assert forall|i: int, j: int| 0 <= i < j < b.recycled.len() implies b.recycled[i] != b.recycled[j] by {
            assert(a.recycled[i] == b.recycled[i]);
            assert(a.recycled[j] == b.recycled[j]);
        }
        assert forall|i: int| 0 <= i < b.recycled.len() implies #[trigger] b.recycled[i] < b.current by {
            assert(a.recycled[i] == b.recycled[i]);
        }
    } else {
        assert(!a.recycled.contains(a.current));
        assert(b.recycled =~= a.recycled);
    }
}

/// Law: an identifier that is given back is no longer in use, and no other
/// identifier changes.
pub proof fn lemma_id_dealloc_frees(a: IdAllocatorModel, id: usize)
    requires
        a.wf(),
        a.in_use(id),
    ensures
        a.dealloc_spec(id).wf(),
        !a.dealloc_spec(id).in_use(id),
        forall|q: usize| q != id ==> (a.dealloc_spec(id).in_use(q) == a.in_use(q)),
{
    let b = a.dealloc_spec(id);
    assert(b.recycled[b.recycled.len() - 1] == id);
    assert forall|q: usize| q != id implies (b.in_use(q) == a.in_use(q)) by {
        if b.recycled.contains(q) {
            let k = choose|k: int| 0 <= k < b.recycled.len() && b.recycled[k] == q;
            assert(a.recycled[k] == q);
        }
        if a.recycled.contains(q) {
            let k = choose|k: int| 0 <= k < a.recycled.len() && a.recycled[k] == q;
            assert(b.recycled[k] == q);
        }
    }
    assert forall|i: int, j: int| 0 <= i < j < b.recycled.len() implies b.recycled[i] != b.recycled[j] by {
        assert(b.recycled[i] == a.recycled[i]);
        if j == a.recycled.len() {
            assert(a.recycled.contains(a.recycled[i]));
        } else {
            assert(b.recycled[j] == a.recycled[j]);
        }
    }
}

/// A process identifier.
pub struct PidHandle(pub usize);

/// Allocator of identifiers that reuses given-back ones, most recent first.
pub struct RecycleAllocator {
    current: usize,
    recycled: Vec<usize>,
}

impl View for RecycleAllocator {
    type V = IdAllocatorModel;

    closed spec fn view(&self) -> IdAllocatorModel {
        IdAllocatorModel { current: self.current, recycled: self.recycled@ }
    }
}

impl RecycleAllocator {
    /// An allocator that has handed out nothing.
    pub fn new() -> (a: Self)
        ensures
            a@.wf(),
            a@.current == 0,
            a@.recycled == Seq::<usize>::empty(),
    {
        RecycleAllocator { current: 0, recycled: Vec::new() }
    }

    /// Hands out the most recently given-back identifier, or else the next
    /// never-used one.
    pub fn allocate(&mut self) -> (id: usize)
        requires
            old(self)@.wf(),
            old(self)@.can_alloc(),
        ensures
            final(self)@.wf(),
            (final(self)@, id) == old(self)@.alloc_spec(),
    {
        proof {
            lemma_id_alloc_fresh(old(self)@);
        }
        if let Some(id) = self.recycled.pop() {
            proof {
                assert(self.recycled@ =~= old(self).recycled@.drop_last());
            }
            id
        } else {
            self.current += 1;
            self.current - 1
        }
    }

    /// Gives identifier `id` back. It must be in use.
    pub fn dealloc(&mut self, id: usize)
        requires
            old(self)@.wf(),
            old(self)@.in_use(id),
        ensures
            final(self)@.wf(),
            final(self)@ == old(self)@.dealloc_spec(id),
    {
        proof {
            lemma_id_dealloc_frees(old(self)@, id);
        }
        self.recycled.push(id);
    }
}

/// A kernel stack, identified by its slot below the trampoline.
pub struct KernelStack(pub usize);

/// Whether the kernel stack in slot `id` lies below the trampoline.
pub open spec fn kernel_stack_fits(id: usize) -> bool {
    id * (KERNEL_STACK_SIZE + PAGE_SIZE) + KERNEL_STACK_SIZE <= TRAMPOLINE
}

/// Bottom and top of the kernel stack in slot `id`; consecutive stacks are
/// separated by an unmapped guard page.
pub fn kernel_stack_position(kernel_stack_id: usize) -> (pos: (usize, usize))
    requires
        kernel_stack_fits(kernel_stack_id),
    ensures
        pos.1 == TRAMPOLINE - kernel_stack_id * (KERNEL_STACK_SIZE + PAGE_SIZE),
        pos.0 == pos.1 - KERNEL_STACK_SIZE,
{
    let top = TRAMPOLINE - kernel_stack_id * (KERNEL_STACK_SIZE + PAGE_SIZE);
    let bottom = top - KERNEL_STACK_SIZE;
    (bottom, top)
}

impl KernelStack {
    /// Top of this kernel stack.
    pub fn get_top(&self) -> (top: usize)
        requires
            kernel_stack_fits(self.0),
        ensures
            top == TRAMPOLINE - self.0 * (KERNEL_STACK_SIZE + PAGE_SIZE),
    {
        let (_, kernel_stack_top) = kernel_stack_position(self.0);
        kernel_stack_top
    }
}

/// Allocates a kernel stack: takes a slot from `kstack_ids` and maps the
/// slot's pages into `kernel_space` as a framed, readable and writable area.
/// The slot's pages must be unmapped and the frame allocator must have the
/// frames they take.
pub fn kernel_stack_alloc(
    kstack_ids: &mut RecycleAllocator,
    kernel_space: &mut MemorySet,
    alloc: &mut StackFrameAllocator,
    mem: &mut PhysMemory,
) -> (ks: KernelStack)
    requires
        old(kstack_ids)@.wf(),
        old(kstack_ids)@.can_alloc(),
        kernel_stack_fits(old(kstack_ids)@.alloc_spec().1),
        old(kernel_space).wf(*old(mem), old(alloc)@),
        ({
            let top = TRAMPOLINE - old(kstack_ids)@.alloc_spec().1 * (KERNEL_STACK_SIZE + PAGE_SIZE);
            let lo = va_bits((top - KERNEL_STACK_SIZE) as usize) / PAGE_SIZE;
            let hi = ceil_page(va_bits(top as usize) as int);
            &&& lo <= hi
            &&& forall|v: usize| lo <= v < hi ==> #[trigger] mapping(*old(mem), old(kernel_space).root(), v) is None
            &&& frames_for(lo as int, hi, 1) <= frames_left(old(alloc)@)
        }),
    ensures
        final(kstack_ids)@.wf(),
        (final(kstack_ids)@, ks.0) == old(kstack_ids)@.alloc_spec(),
        final(kernel_space).wf(*final(mem), final(alloc)@),
        final(kernel_space).root() == old(kernel_space).root(),
        final(kernel_space).areas().len() == old(kernel_space).areas().len() + 1,
        forall|i: int| 0 <= i < old(kernel_space).areas().len() ==> #[trigger] final(kernel_space).areas()[i]
            == old(kernel_space).areas()[i],
        ({
            let top = TRAMPOLINE - ks.0 * (KERNEL_STACK_SIZE + PAGE_SIZE);
            let a = final(kernel_space).areas().last();
            &&& a.start() == va_bits((top - KERNEL_STACK_SIZE) as usize) / PAGE_SIZE
            &&& a.end() == ceil_page(va_bits(top as usize) as int)
            &&& a.kind() == MapType::Framed
            &&& a.perm() == 6
            &&& forall|v: usize| a.contains(v) ==> final(mem).page(#[trigger] a.frames()[v]) == zero_page()
            &&& forall|v: usize| (forall|u: usize| a.contains(u) ==> !same_slot(v, u)) ==> #[trigger] mapping(
                *final(mem), final(kernel_space).root(), v) == mapping(*old(mem), old(kernel_space).root(), v)
        }),
{
    let kernel_stack_id = kstack_ids.allocate();
    let (kernel_stack_bottom, kernel_stack_top) = kernel_stack_position(kernel_stack_id);
    proof {
        crate::mm::address::lemma_virt_addr_small(kernel_stack_top);
        if usize::BITS == 32 {
            assert(usize::MAX == 0xffff_ffff);
            assert(va_bits(kernel_stack_top) == kernel_stack_top);
            assert(kernel_stack_top <= TRAMPOLINE);
        }
        assert(crate::mm::address::ceil_fits(va_bits(kernel_stack_top)));
    }
    let start_va = VirtAddr::from(kernel_stack_bottom);
    let end_va = VirtAddr::from(kernel_stack_top);
    kernel_space.insert_framed_area(
        start_va,
        end_va,
        MapPermission { bits: MapPermission::R | MapPermission::W },
        alloc,
        mem,
    );
    proof {
        assert(MapPermission::R | MapPermission::W == 6u8) by (bit_vector);
    }
    KernelStack(kernel_stack_id)
}

/// Allocates a process identifier.
pub fn pid_alloc(allocator: &mut RecycleAllocator) -> (pid: PidHandle)
    requires
        old(allocator)@.wf(),
        old(allocator)@.can_alloc(),
    ensures
        final(allocator)@.wf(),
        (final(allocator)@, pid.0) == old(allocator)@.alloc_spec(),
{
    PidHandle(allocator.allocate())
}

/// Bottom of the trap context page of thread `tid`: one page per thread,
/// growing down from the trap context base.
pub fn trap_cx_bottom_from_tid(tid: usize) -> (addr: usize)
    requires
        tid * PAGE_SIZE <= TRAP_CONTEXT_BASE,
    ensures
        addr == TRAP_CONTEXT_BASE - tid * PAGE_SIZE,
{
    TRAP_CONTEXT_BASE - tid * PAGE_SIZE
}

/// Bottom of the user stack of thread `tid`: stacks grow up from
/// `user_stack_base`, each followed by a guard page.
pub fn user_stack_bottom_from_tid(user_stack_base: usize, tid: usize) -> (addr: usize)
    requires
        user_stack_base + tid * (PAGE_SIZE + USER_STACK_SIZE) <= usize::MAX,
    ensures
        addr == user_stack_base + tid * (PAGE_SIZE + USER_STACK_SIZE),
{
    user_stack_base + tid * (PAGE_SIZE + USER_STACK_SIZE)
}


/// Pages `[lo, hi)` of the user stack of thread `tid`.
pub open spec fn user_stack_pages(user_stack_base: usize, tid: usize) -> (int, int) {
    let bottom = (user_stack_base + tid * (PAGE_SIZE + USER_STACK_SIZE)) as usize;
    ((va_bits(bottom) / PAGE_SIZE) as int, ceil_page(va_bits((bottom + USER_STACK_SIZE) as usize) as int))
}

/// Pages `[lo, hi)` of the trap context of thread `tid`.
pub open spec fn trap_cx_pages(tid: usize) -> (int, int) {
    let bottom = (TRAP_CONTEXT_BASE - tid * PAGE_SIZE) as usize;
    ((va_bits(bottom) / PAGE_SIZE) as int, ceil_page(va_bits((bottom + PAGE_SIZE) as usize) as int))
}

/// The user-level resources of a thread: its id, which places its user
/// stack (above `user_stack_base`) and its trap context page (below the
/// trampoline).
pub struct TaskUserResource {
    pub tid: usize,
    pub user_stack_base: usize,
}

impl TaskUserResource {
    /// Resources of a new thread of a process whose thread ids come from
    /// `tids`, with user stacks above `user_stack_base`. Its memory is
    /// mapped by `alloc_user_res`.
    pub fn new(tids: &mut RecycleAllocator, user_stack_base: usize) -> (res: Self)
        requires
            old(tids)@.wf(),
            old(tids)@.can_alloc(),
        ensures
            final(tids)@.wf(),
            (final(tids)@, res.tid) == old(tids)@.alloc_spec(),
            res.user_stack_base == user_stack_base,
    {
        let tid = tids.allocate();
        TaskUserResource { tid, user_stack_base }
    }

    /// Maps the thread's user stack (readable, writable, user) and its trap
    /// context page (readable, writable) into the process's address space
    /// as framed areas. Both must be unmapped and apart, and the frame
    /// allocator must have the frames they take.
    pub fn alloc_user_res(&self, memory_set: &mut MemorySet, alloc: &mut StackFrameAllocator, mem: &mut PhysMemory)
        requires
            self.user_stack_base + self.tid * (PAGE_SIZE + USER_STACK_SIZE) + USER_STACK_SIZE <= usize::MAX,
            crate::mm::address::ceil_fits(va_bits((self.user_stack_base + self.tid * (PAGE_SIZE + USER_STACK_SIZE) + USER_STACK_SIZE) as usize)),
            self.tid * PAGE_SIZE <= TRAP_CONTEXT_BASE,
            old(memory_set).wf(*old(mem), old(alloc)@),
            ({
                let s = user_stack_pages(self.user_stack_base, self.tid);
                let t = trap_cx_pages(self.tid);
                &&& s.0 <= s.1
                &&& t.0 <= t.1
                &&& s.1 <= t.0 || t.1 <= s.0
                &&& forall|v: usize| (s.0 <= v < s.1 || t.0 <= v < t.1) ==> #[trigger] mapping(*old(mem), old(memory_set).root(), v) is None
                &&& frames_for(s.0, s.1, 1) + frames_for(t.0, t.1, 1) <= frames_left(old(alloc)@)
            }),
        ensures
            final(memory_set).wf(*final(mem), final(alloc)@),
            final(memory_set).root() == old(memory_set).root(),
            final(memory_set).areas().len() == old(memory_set).areas().len() + 2,
            forall|i: int| 0 <= i < old(memory_set).areas().len() ==> #[trigger] final(memory_set).areas()[i]
                == old(memory_set).areas()[i],
            ({
                let s = user_stack_pages(self.user_stack_base, self.tid);
                let t = trap_cx_pages(self.tid);
                let n = old(memory_set).areas().len() as int;
                let sa = final(memory_set).areas()[n];
                let ta = final(memory_set).areas()[n + 1];
                &&& sa.start() == s.0 && sa.end() == s.1 && sa.kind() == MapType::Framed && sa.perm() == 22
                &&& ta.start() == t.0 && ta.end() == t.1 && ta.kind() == MapType::Framed && ta.perm() == 6
                &&& forall|v: usize| ta.contains(v) ==> final(mem).page(#[trigger] ta.frames()[v]) == zero_page()
                &&& forall|v: usize| (forall|u: usize| (s.0 <= u < s.1 || t.0 <= u < t.1) ==> !same_slot(v, u))
                    ==> #[trigger] mapping(*final(mem), final(memory_set).root(), v) == mapping(*old(mem), old(memory_set).root(), v)
            }),
    {
        let user_stack_bottom = user_stack_bottom_from_tid(self.user_stack_base, self.tid);
        let user_stack_top = user_stack_bottom + USER_STACK_SIZE;
        let trap_cx_bottom = trap_cx_bottom_from_tid(self.tid);
        let trap_cx_top = trap_cx_bottom + PAGE_SIZE;
        let ghost s = user_stack_pages(self.user_stack_base, self.tid);
        let ghost t = trap_cx_pages(self.tid);
        proof {
            crate::mm::address::lemma_virt_addr_small(user_stack_bottom);
            crate::mm::address::lemma_virt_addr_small(user_stack_top);
            crate::mm::address::lemma_virt_addr_small(trap_cx_bottom);
            crate::mm::address::lemma_virt_addr_small(trap_cx_top);
            if usize::BITS == 32 {
                assert(usize::MAX == 0xffff_ffff);
            }
            assert(crate::mm::address::ceil_fits(va_bits(user_stack_top)));
            assert(crate::mm::address::ceil_fits(va_bits(trap_cx_top)));
            assert(s.1 <= 134217728);
            assert(t.1 <= 134217728);
        }
        let ghost m0 = *mem;
        let ghost ms0 = *memory_set;
        let ghost f0 = frames_left(alloc@);
        memory_set.insert_framed_area(
            VirtAddr::from(user_stack_bottom),
            VirtAddr::from(user_stack_top),
            MapPermission { bits: MapPermission::R | MapPermission::W | MapPermission::U },
            alloc,
            mem,
        );
        proof {
            assert forall|v: usize| t.0 <= v < t.1 implies #[trigger] mapping(*mem, memory_set.root(), v) is None by {
                assert forall|u: usize| s.0 <= u < s.1 implies !same_slot(v, u) by {
                    if v < u {
                        crate::mm::page_table::lemma_near_pages_distinct_slots(v, u);
                    } else {
                        crate::mm::page_table::lemma_near_pages_distinct_slots(u, v);
                    }
                }
                assert(mapping(m0, ms0.root(), v) is None);
            }
        }
        let ghost m1 = *mem;
        let ghost ms1 = *memory_set;
        memory_set.insert_framed_area(
            VirtAddr::from(trap_cx_bottom),
            VirtAddr::from(trap_cx_top),
            MapPermission { bits: MapPermission::R | MapPermission::W },
            alloc,
            mem,
        );
        proof {
            assert(MapPermission::R | MapPermission::W | MapPermission::U == 22u8 && MapPermission::R | MapPermission::W == 6u8)
                by (bit_vector);
            let n = ms0.areas().len() as int;
            assert(memory_set.areas()[n] == ms1.areas()[n]);
            assert forall|v: usize| (forall|u: usize| (s.0 <= u < s.1 || t.0 <= u < t.1) ==> !same_slot(v, u))
                implies #[trigger] mapping(*mem, memory_set.root(), v) == mapping(m0, ms0.root(), v) by {
                assert(forall|u: usize| t.0 <= u < t.1 ==> !same_slot(v, u));
                assert(forall|u: usize| s.0 <= u < s.1 ==> !same_slot(v, u));
            }
        }
    }

    /// Takes a new thread id from `tids` for this thread.
    pub fn alloc_tid(&mut self, tids: &mut RecycleAllocator)
        requires
            old(tids)@.wf(),
            old(tids)@.can_alloc(),
        ensures
            final(tids)@.wf(),
            (final(tids)@, final(self).tid) == old(tids)@.alloc_spec(),
            final(self).user_stack_base == old(self).user_stack_base,
    {
        self.tid = tids.allocate();
    }

    /// Gives the thread's id back to `tids`.
    pub fn dealloc_tid(&self, tids: &mut RecycleAllocator)
        requires
            old(tids)@.wf(),
            old(tids)@.in_use(self.tid),
        ensures
            final(tids)@.wf(),
            final(tids)@ == old(tids)@.dealloc_spec(self.tid),
    {
        tids.dealloc(self.tid);
    }

    /// Address of the thread's trap context in user space.
    pub fn trap_cx_user_va(&self) -> (va: usize)
        requires
            self.tid * PAGE_SIZE <= TRAP_CONTEXT_BASE,
        ensures
            va == TRAP_CONTEXT_BASE - self.tid * PAGE_SIZE,
    {
        trap_cx_bottom_from_tid(self.tid)
    }

    /// The physical page that holds the thread's trap context, which must be
    /// mapped in the process's address space.
    pub fn trap_cx_ppn(&self, memory_set: &MemorySet, mem: &PhysMemory) -> (ppn: PhysPageNum)
        requires
            self.tid * PAGE_SIZE <= TRAP_CONTEXT_BASE,
            memory_set.table_wf(*mem),
            mapping(*mem, memory_set.root(), trap_cx_pages(self.tid).0 as usize) is Some,
        ensures
            ppn.0 == pte_ppn(mapping(*mem, memory_set.root(), trap_cx_pages(self.tid).0 as usize)->0),
    {
        let trap_cx_bottom_va = VirtAddr::from(trap_cx_bottom_from_tid(self.tid));
        let pte = memory_set.translate(mem, trap_cx_bottom_va.floor());
        match pte {
            Some(p) => p.ppn(),
            None => PhysPageNum(0),
        }
    }

    /// The base above which the process's user stacks lie.
    pub fn user_stack_base(&self) -> (base: usize)
        ensures
            base == self.user_stack_base,
    {
        self.user_stack_base
    }

    /// Top of the thread's user stack.
    pub fn user_stack_top(&self) -> (top: usize)
        requires
            self.user_stack_base + self.tid * (PAGE_SIZE + USER_STACK_SIZE) + USER_STACK_SIZE <= usize::MAX,
        ensures
            top == self.user_stack_base + self.tid * (PAGE_SIZE + USER_STACK_SIZE) + USER_STACK_SIZE,
    {
        user_stack_bottom_from_tid(self.user_stack_base, self.tid) + USER_STACK_SIZE
    }
}

} // verus!
