//! Files: the pipe ring buffer and file open flags.
pub mod pipe;
pub mod inode;
