//! A simple file system on a block device: block caching, allocation
//! bitmaps and the placement of inodes and data blocks.
use vstd::prelude::*;

pub mod bitmap;
pub mod block_cache;
pub mod efs;

verus! {

/// Size of a block in bytes.
pub const BLOCK_SZ: usize = 512;

/// A device that reads and writes whole blocks.
pub trait BlockDevice {
    /// Reads block `block_id` into `buf`.
    fn read_block(&self, block_id: usize, buf: &mut [u8])
        ensures
            final(buf)@.len() == old(buf)@.len(),
    ;

    /// Writes `buf` to block `block_id`.
    fn write_block(&self, block_id: usize, buf: &[u8]);
}

} // verus!
