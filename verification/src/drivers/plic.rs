//! Register layout of the platform-level interrupt controller (PLIC).
//!
//! Every interrupt source has a 32-bit priority register at
//! `base + 4 * source`. Every context (a hart in one privilege mode) has 128
//! enable bits in four 32-bit words at `base + 0x2000 + 0x80 * context`, and a
//! threshold register and a claim/complete register at
//! `base + 0x20_0000 + 0x1000 * context` and four bytes above it. Contexts are
//! numbered two per hart: machine mode first, then supervisor mode.
use vstd::prelude::*;

verus! {

/// The privilege mode that an interrupt is delivered to.
#[derive(Copy, Clone, Debug, PartialEq, Eq, Structural)]
pub enum IntrTargetPriority {
    /// Machine mode.
    Machine,
    /// Supervisor mode.
    Supervisor,
}

/// The index of a privilege mode among the contexts of one hart.
pub open spec fn priority_index(p: IntrTargetPriority) -> int {
    match p {
        IntrTargetPriority::Machine => 0,
        IntrTargetPriority::Supervisor => 1,
    }
}

/// The context number of hart `hart_id` in mode `p`.
pub open spec fn context_id(hart_id: int, p: IntrTargetPriority) -> int {
    hart_id * 2 + priority_index(p)
}

impl IntrTargetPriority {
    /// Number of contexts each hart has.
    pub fn supported_number() -> (n: usize)
        ensures
            n == 2,
    {
        2
    }
}

/// A PLIC at a given base address.
pub struct PLIC {
    pub base_addr: usize,
}

/// Whether every register of hart `hart_id` lies below `usize::MAX` for a
/// controller at `base`.
pub open spec fn hart_fits(base: usize, hart_id: usize) -> bool {
    base + 0x20_0004 + 0x1000 * context_id(hart_id as int, IntrTargetPriority::Supervisor) <= usize::MAX
}

impl PLIC {
    /// A controller whose registers start at `base_addr`.
    pub fn new(base_addr: usize) -> (p: Self)
        ensures
            p.base_addr == base_addr,
    {
        PLIC { base_addr }
    }

    /// Address of the priority register of interrupt source `intr_source_id`
    /// (sources are numbered 1 to 132).
    pub fn priority_ptr(&self, intr_source_id: usize) -> (addr: usize)
        requires
            0 < intr_source_id <= 132,
            self.base_addr + 4 * 132 <= usize::MAX,
        ensures
            addr == self.base_addr + intr_source_id * 4,
    {
        self.base_addr + intr_source_id * 4
    }

    /// The context number of hart `hart_id` in mode `target_priority`.
    pub fn hart_id_with_priority(hart_id: usize, target_priority: IntrTargetPriority) -> (id: usize)
        requires
            context_id(hart_id as int, IntrTargetPriority::Supervisor) <= usize::MAX,
        ensures
            id == context_id(hart_id as int, target_priority),
    {
        let priority_num = IntrTargetPriority::supported_number();
        let index: usize = match target_priority {
            IntrTargetPriority::Machine => 0,
            IntrTargetPriority::Supervisor => 1,
        };
        hart_id * priority_num + index
    }

    /// Address of the enable word that holds the bit of source
    /// `intr_source_id` in the given context, and the bit's position in it.
    pub fn enable_ptr(&self, hart_id: usize, target_priority: IntrTargetPriority, intr_source_id: usize) -> (r: (usize, usize))
        requires
            hart_fits(self.base_addr, hart_id),
            intr_source_id < 128,
        ensures
            r.0 == self.base_addr + 0x2000 + 0x80 * context_id(hart_id as int, target_priority)
                + 4 * (intr_source_id / 32),
            r.1 == intr_source_id % 32,
    {
        let id = Self::hart_id_with_priority(hart_id, target_priority);
        let (reg_id, reg_shift) = (intr_source_id / 32, intr_source_id % 32);
        (self.base_addr + 0x2000 + 0x80 * id + 0x04 * reg_id, reg_shift)
    }

    /// Address of the threshold register of a context.
    pub fn threshold_ptr_of_hart_with_priority(&self, hart_id: usize, target_priority: IntrTargetPriority) -> (addr: usize)
        requires
            hart_fits(self.base_addr, hart_id),
        ensures
            addr == self.base_addr + 0x20_0000 + 0x1000 * context_id(hart_id as int, target_priority),
    {
        let id = Self::hart_id_with_priority(hart_id, target_priority);
        self.base_addr + 0x20_0000 + 0x1000 * id
    }

    /// Address of the claim/complete register of a context.
    pub fn claim_comp_ptr_of_hart_with_priority(&self, hart_id: usize, target_priority: IntrTargetPriority) -> (addr: usize)
        requires
            hart_fits(self.base_addr, hart_id),
        ensures
            addr == self.base_addr + 0x20_0004 + 0x1000 * context_id(hart_id as int, target_priority),
    {
        let id = Self::hart_id_with_priority(hart_id, target_priority);
        self.base_addr + 0x20_0004 + 0x1000 * id
    }
}

} // verus!
