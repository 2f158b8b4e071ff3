//! The network system calls' decisions over the table of listening ports
//! and a process's descriptor table.
use vstd::prelude::*;
use crate::net::port_table::{listen, listen_table_wf, Port, PortFd};
use crate::net::socket::{first_free_slot, lemma_first_free_slot};
use crate::syscall::fs::{alloc_fd, lowest_free_fd};

verus! {

/// Starts listening on `port` and gives the calling process a descriptor
/// for the listener, in its lowest free descriptor slot; returns the
/// listener's slot in the port table.
pub fn sys_listen<T, F: From<PortFd>>(ports: &mut Vec<Option<Port<T>>>, fd_table: &mut Vec<Option<F>>, port: u16) -> (r: isize)
    requires
        old(ports)@.len() < isize::MAX,
        old(fd_table)@.len() < usize::MAX,
        listen_table_wf(old(ports)@),
    ensures
        listen_table_wf(final(ports)@),
        ({
            let i = first_free_slot(old(ports)@);
            let fd = lowest_free_fd(old(fd_table)@);
            &&& r == i
            &&& final(ports)@[i] matches Some(p) && p.port == port && !p.receivable && p.schedule is None
            &&& forall|j: int| 0 <= j < old(ports)@.len() && j != i ==> final(ports)@[j] == old(ports)@[j]
            &&& final(fd_table)@.len() == if fd < old(fd_table)@.len() { old(fd_table)@.len() as int } else { fd + 1 }
            &&& final(fd_table)@[fd] is Some
            &&& forall|j: int| 0 <= j < old(fd_table)@.len() && j != fd ==> #[trigger] final(fd_table)@[j] == old(fd_table)@[j]
        }),
{
    proof {
        lemma_first_free_slot(old(ports)@);
    }
    match listen(ports, port) {
        Some(port_index) => {
            let fd = alloc_fd(fd_table);
            let port_fd = PortFd::new(port_index);
            fd_table.set(fd, Some(F::from(port_fd)));
            port_index as isize
        },
        None => -1,
    }
}

} // verus!
