//! Process identifiers and per-process kernel stacks, in the form used before
//! threads were introduced: each process has one kernel stack, placed by its
//! process identifier.
use vstd::prelude::*;
use crate::config::{KERNEL_STACK_SIZE, PAGE_SIZE, TRAMPOLINE};
use crate::task::id::{IdAllocatorModel, lemma_id_alloc_fresh, lemma_id_dealloc_frees};

verus! {

/// A process identifier.
pub struct PidHandle(pub usize);

/// Allocator of process identifiers that reuses given-back ones, most recent first.
pub struct PidAllocator {
    current: usize,
    recycled: Vec<usize>,
}

impl View for PidAllocator {
    type V = IdAllocatorModel;

    closed spec fn view(&self) -> IdAllocatorModel {
        IdAllocatorModel { current: self.current, recycled: self.recycled@ }
    }
}

impl PidAllocator {
    /// An allocator that has handed out nothing.
    pub fn new() -> (a: Self)
        ensures
            a@.wf(),
            a@.current == 0,
            a@.recycled == Seq::<usize>::empty(),
    {
        PidAllocator { current: 0, recycled: Vec::new() }
    }

    /// Hands out the most recently given-back identifier, or else the next
    /// never-used one.
    pub fn allocate(&mut self) -> (pid: PidHandle)
        requires
            old(self)@.wf(),
            old(self)@.can_alloc(),
        ensures
            final(self)@.wf(),
            (final(self)@, pid.0) == old(self)@.alloc_spec(),
    {
        proof {
            lemma_id_alloc_fresh(old(self)@);
        }
        if let Some(pid) = self.recycled.pop() {
            proof {
                assert(self.recycled@ =~= old(self).recycled@.drop_last());
            }
            PidHandle(pid)
        } else {
            self.current += 1;
            PidHandle(self.current - 1)
        }
    }

    /// Gives identifier `pid` back. It must be in use.
    pub fn dealloc(&mut self, pid: usize)
        requires
            old(self)@.wf(),
            old(self)@.in_use(pid),
        ensures
            final(self)@.wf(),
            final(self)@ == old(self)@.dealloc_spec(pid),
    {
        proof {
            lemma_id_dealloc_frees(old(self)@, pid);
        }
        self.recycled.push(pid);
    }
}

/// The kernel stack of a process.
pub struct KernelStack {
    pid: usize,
}

/// Whether the kernel stack of application `app_id` lies below the trampoline.
pub open spec fn kernel_stack_fits(app_id: usize) -> bool {
    app_id * (KERNEL_STACK_SIZE + PAGE_SIZE) + KERNEL_STACK_SIZE <= TRAMPOLINE
}

/// Bottom and top of the kernel stack of application `app_id`; consecutive
/// stacks are separated by an unmapped guard page.
pub fn kernel_stack_position(app_id: usize) -> (pos: (usize, usize))
    requires
        kernel_stack_fits(app_id),
    ensures
        pos.1 == TRAMPOLINE - app_id * (KERNEL_STACK_SIZE + PAGE_SIZE),
        pos.0 == pos.1 - KERNEL_STACK_SIZE,
{
    let top = TRAMPOLINE - app_id * (KERNEL_STACK_SIZE + PAGE_SIZE);
    let bottom = top - KERNEL_STACK_SIZE;
    (bottom, top)
}

impl KernelStack {
    /// The process this stack belongs to.
    pub closed spec fn pid(&self) -> usize {
        self.pid
    }

    /// Top of this kernel stack.
    pub fn get_top(&self) -> (top: usize)
        requires
            kernel_stack_fits(self.pid()),
        ensures
            top == TRAMPOLINE - self.pid() * (KERNEL_STACK_SIZE + PAGE_SIZE),
    {
        let (_, kernel_stack_top) = kernel_stack_position(self.pid);
        kernel_stack_top
    }
}

/// Allocates a process identifier.
pub fn pid_alloc(allocator: &mut PidAllocator) -> (pid: PidHandle)
    requires
        old(allocator)@.wf(),
        old(allocator)@.can_alloc(),
    ensures
        final(allocator)@.wf(),
        (final(allocator)@, pid.0) == old(allocator)@.alloc_spec(),
{
    allocator.allocate()
}

} // verus!
