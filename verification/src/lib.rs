//! Verified core of a small RISC-V teaching kernel: address arithmetic,
//! physical frame and id allocation, SV39 page tables, address spaces,
//! a pipe ring buffer, the on-disk bitmaps of a simple file system and the
//! bookkeeping tables of processes and sockets.
pub mod config;
pub mod mm;
pub mod task;
pub mod fs;
pub mod sync;
pub mod drivers;
pub mod net;
pub mod easy_fs;
pub mod syscall;
pub mod batch;
pub mod loader;
