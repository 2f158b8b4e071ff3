//! Kernel-wide constants.
use vstd::prelude::*;

verus! {

/// Size of a user stack in bytes.
pub const USER_STACK_SIZE: usize = 8192;

/// Size of a kernel stack in bytes.
pub const KERNEL_STACK_SIZE: usize = 8192;

/// Size of the kernel heap in bytes (3 MiB).
pub const KERNEL_HEAP_SIZE: usize = 0x30_0000;

/// Size of a page (4 KiB).
pub const PAGE_SIZE: usize = 0x1000;

/// Number of offset bits inside a page.
pub const PAGE_SIZE_BITS: usize = 0xc;

/// Virtual address of the trampoline page: the highest page of the address space.
pub const TRAMPOLINE: usize = usize::MAX - PAGE_SIZE + 1;

/// Base of the per-thread trap context pages, just below the trampoline.
pub const TRAP_CONTEXT_BASE: usize = TRAMPOLINE - PAGE_SIZE;

/// Trap context page of the main thread.
pub const TRAP_CONTEXT: usize = TRAMPOLINE - PAGE_SIZE;

/// End of physical memory on the QEMU virt board (128 MiB after 0x8000_0000).
pub const MEMORY_END: usize = 0x8800_0000;

/// Memory-mapped device regions of the QEMU virt board, as (base, length):
/// the test/RTC device and the virtio block device.
pub const MMIO: [(usize, usize); 2] = [(0x0010_0000, 0x2000), (0x1000_1000, 0x1000)];

/// Clock frequency of the QEMU virt board.
pub const CLOCK_FREQ: usize = 12_500_000;

/// Base address of the PLIC registers on the QEMU virt board.
pub const VIRT_PLIC: usize = 0xC00_0000;

/// Base address of the UART registers on the QEMU virt board.
pub const VIRT_UART: usize = 0x1000_0000;

} // verus!
