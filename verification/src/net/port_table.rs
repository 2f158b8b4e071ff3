//! The table of listening ports. A slot is `None` when free; a new listener
//! takes the first free slot, or a new slot at the end.
use vstd::prelude::*;
use crate::net::socket::{first_free_slot, find_free_slot};

verus! {

/// A listening port; `schedule` is the thread waiting to accept a connection.
pub struct Port<T> {
    /// Port number.
    pub port: u16,
    /// Whether a thread is waiting to accept a connection.
    pub receivable: bool,
    /// The thread waiting to accept a connection.
    pub schedule: Option<T>,
}

/// Every port that is ready to accept has a thread waiting on it.
pub open spec fn listen_table_wf<T>(t: Seq<Option<Port<T>>>) -> bool {
    forall|i: int| 0 <= i < t.len() ==> (#[trigger] t[i] matches Some(p) ==> (p.receivable ==> p.schedule is Some))
}

/// A file descriptor for a listening port, naming its slot in the table.
pub struct PortFd(pub usize);

impl PortFd {
    /// The descriptor of the listener in slot `port_index`.
    pub fn new(port_index: usize) -> (fd: Self)
        ensures
            fd.0 == port_index,
    {
        PortFd(port_index)
    }
}

/// Starts listening on `port` in the first free slot (or a new one) and
/// returns the slot.
pub fn listen<T>(table: &mut Vec<Option<Port<T>>>, port: u16) -> (idx: Option<usize>)
    requires
        old(table)@.len() < usize::MAX,
        listen_table_wf(old(table)@),
    ensures
        listen_table_wf(final(table)@),
        ({
            let i = first_free_slot(old(table)@);
            &&& idx == Some(i as usize)
            &&& final(table)@.len() == if i < old(table)@.len() { old(table)@.len() } else { old(table)@.len() + 1 }
            &&& final(table)@[i] matches Some(p) && p.port == port && !p.receivable && p.schedule is None
            &&& forall|j: int| 0 <= j < old(table)@.len() && j != i ==> final(table)@[j] == old(table)@[j]
        }),
{
    let index = find_free_slot(table);
    let listen_port = Port { port, receivable: false, schedule: None };
    if index == table.len() {
        table.push(Some(listen_port));
        Some(table.len() - 1)
    } else {
        table.set(index, Some(listen_port));
        Some(index)
    }
}

/// Marks the listener in slot `listen_index` ready to accept, with `task`
/// waiting for the connection.
pub fn accept<T>(table: &mut Vec<Option<Port<T>>>, listen_index: usize, task: T)
    requires
        listen_index < old(table)@.len(),
        old(table)@[listen_index as int] is Some,
        listen_table_wf(old(table)@),
    ensures
        listen_table_wf(final(table)@),
        final(table)@.len() == old(table)@.len(),
        forall|j: int| 0 <= j < old(table)@.len() && j != listen_index ==> final(table)@[j] == old(table)@[j],
        final(table)@[listen_index as int] matches Some(p) && old(table)@[listen_index as int] matches Some(o)
            && p.port == o.port && p.receivable && p.schedule == Some(task),
{
    let mut slot: Option<Port<T>> = None;
    std::mem::swap(&mut slot, &mut table[listen_index]);
    match slot {
        Some(mut listen_port) => {
            listen_port.receivable = true;
            listen_port.schedule = Some(task);
            table.set(listen_index, Some(listen_port));
        },
        None => {},
    }
}

/// Whether the listener in slot `listen_index` is ready to accept.
pub fn port_acceptable<T>(table: &Vec<Option<Port<T>>>, listen_index: usize) -> (r: bool)
    requires
        listen_index < table@.len(),
    ensures
        r == match table@[listen_index as int] {
            Some(p) => p.receivable,
            None => false,
        },
{
    match &table[listen_index] {
        Some(x) => x.receivable,
        None => false,
    }
}

/// Whether slot `s` listens on `port` and is ready to accept.
pub open spec fn accepting<T>(s: Option<Port<T>>, port: u16) -> bool {
    s matches Some(p) && p.port == port && p.receivable
}

/// Takes the thread waiting on the first listener of `port` that is ready to
/// accept, if any, and marks that listener no longer ready. The connection is
/// then set up for the returned thread.
pub fn check_accept<T>(table: &mut Vec<Option<Port<T>>>, port: u16) -> (task: Option<T>)
    requires
        listen_table_wf(old(table)@),
    ensures
        listen_table_wf(final(table)@),
        final(table)@.len() == old(table)@.len(),
        (forall|j: int| 0 <= j < old(table)@.len() ==> !accepting(#[trigger] old(table)@[j], port))
            ==> task is None && final(table)@ == old(table)@,
        (exists|j: int| 0 <= j < old(table)@.len() && accepting(#[trigger] old(table)@[j], port)) ==> task is Some
            && exists|i: int| 0 <= i < old(table)@.len() && {
            &&& accepting(old(table)@[i], port)
            &&& forall|k: int| 0 <= k < i ==> !accepting(#[trigger] old(table)@[k], port)
            &&& old(table)@[i] matches Some(o) && task == o.schedule && (final(table)@[i] matches Some(p)
                && p.port == o.port && !p.receivable && p.schedule is None)
            &&& forall|j: int| 0 <= j < old(table)@.len() && j != i ==> final(table)@[j] == old(table)@[j]
        },
{
    let mut i: usize = 0;
    while i < table.len()
        invariant
            i <= table@.len(),
            table@ == old(table)@,
            listen_table_wf(old(table)@),
            forall|k: int| 0 <= k < i ==> !accepting(#[trigger] table@[k], port),
        decreases table@.len() - i,
    {
        let hit = match &table[i] {
            Some(t) => t.port == port && t.receivable,
            None => false,
        };
        if hit {
            let mut slot: Option<Port<T>> = None;
            std::mem::swap(&mut slot, &mut table[i]);
            match slot {
                Some(mut listen_port) => {
                    let mut task: Option<T> = None;
                    std::mem::swap(&mut task, &mut listen_port.schedule);
                    listen_port.receivable = false;
                    table.set(i, Some(listen_port));
                    proof {
                        assert(accepting(old(table)@[i as int], port));
                    }
                    return task;
                },
                None => {},
            }
        }
        i = i + 1;
    }
    None
}

} // verus!
