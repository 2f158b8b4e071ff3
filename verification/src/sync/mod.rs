//! Synchronisation primitives for a single-hart kernel.
pub mod up;
pub mod mutex;
pub mod condvar;
