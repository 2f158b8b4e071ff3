//! Scheduling state of a thread.
use vstd::prelude::*;

verus! {

/// Scheduling state of a thread.
#[derive(Copy, Clone, Debug, PartialEq, Eq, Structural)]
pub enum TaskStatus {
    /// Waiting in the ready queue.
    Ready,
    /// On the processor.
    Running,
    /// Waiting for an event (a lock, a timer, a condition).
    Blocked,
    /// Exited, not yet reaped.
    Zombie,
}

} // verus!
