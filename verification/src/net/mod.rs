//! Network bookkeeping: the table of connections and the table of
//! listening ports.
use vstd::prelude::*;

pub mod port_table;
pub mod socket;
pub mod dispatch;

verus! {

/// An IPv4 address, as its 32-bit value.
#[derive(Copy, Clone, Debug, PartialEq, Eq, Structural)]
pub struct IPv4(pub u32);

} // verus!
