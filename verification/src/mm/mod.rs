//! Memory management: addresses, frames, page tables and address spaces.
pub mod address;
pub mod phys_mem;
pub mod frame_allocator;
pub mod page_table;
pub mod memory_set;
