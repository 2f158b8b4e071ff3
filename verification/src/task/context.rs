//! The context a kernel thread keeps across a switch.
use vstd::prelude::*;

verus! {

/// Registers saved by a context switch: the return address, the kernel stack
/// pointer and the callee-saved registers `s0` to `s11`.
#[derive(Copy, Clone)]
pub struct TaskContext {
    pub ra: usize,
    pub sp: usize,
    pub s: [usize; 12],
}

impl TaskContext {
    /// A context with every register zero.
    pub fn zero_init() -> (cx: Self)
        ensures
            cx.ra == 0,
            cx.sp == 0,
            forall|i: int| 0 <= i < 12 ==> cx.s@[i] == 0,
    {
        TaskContext { ra: 0, sp: 0, s: [0usize; 12] }
    }

    /// A context that, when switched to, returns to `trap_return` on the
    /// kernel stack whose top is `k_stack_ptr`.
    pub fn goto_trap_return(trap_return: usize, k_stack_ptr: usize) -> (cx: Self)
        ensures
            cx.ra == trap_return,
            cx.sp == k_stack_ptr,
            forall|i: int| 0 <= i < 12 ==> cx.s@[i] == 0,
    {
        TaskContext { ra: trap_return, sp: k_stack_ptr, s: [0usize; 12] }
    }
}

} // verus!
