//! Processes and threads: identifiers, contexts and scheduling state.
pub mod id;
pub mod pid;
pub mod context;
pub mod task;
pub mod manager;
pub mod exit;
pub mod processor;
pub mod process;
