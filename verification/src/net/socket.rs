//! The table of connections. A slot is `None` when free; a new connection
//! takes the first free slot, or a new slot at the end.
use vstd::prelude::*;
use std::collections::VecDeque;
use crate::net::IPv4;

verus! {

/// A connection with a remote endpoint.
pub struct Socket {
    /// Remote address.
    pub r_addr: IPv4,
    /// Local port.
    pub l_port: u16,
    /// Remote port.
    pub r_port: u16,
    /// Received packets not yet read, oldest first.
    pub buffers: VecDeque<Vec<u8>>,
    /// Sequence number.
    pub seq: u32,
    /// Acknowledgement number.
    pub ack: u32,
}

/// Whether slot `s` holds the connection with the given endpoints.
pub open spec fn socket_matches(s: Option<Socket>, r_addr: IPv4, l_port: u16, r_port: u16) -> bool {
    match s {
        Some(sock) => sock.r_addr == r_addr && sock.l_port == l_port && sock.r_port == r_port,
        None => false,
    }
}

/// The first slot of `t` that holds the connection with the given endpoints.
pub open spec fn socket_index_of(t: Seq<Option<Socket>>, r_addr: IPv4, l_port: u16, r_port: u16) -> Option<int> {
    if exists|j: int| 0 <= j < t.len() && #[trigger] socket_matches(t[j], r_addr, l_port, r_port) {
        Some(choose|j: int| 0 <= j < t.len() && #[trigger] socket_matches(t[j], r_addr, l_port, r_port)
            && forall|k: int| 0 <= k < j ==> !socket_matches(#[trigger] t[k], r_addr, l_port, r_port))
    } else {
        None
    }
}

/// The first free slot of `t`, or `t.len()` if none is free.
pub open spec fn first_free_slot<T>(t: Seq<Option<T>>) -> int
    decreases t.len(),
{
    if t.len() == 0 {
        0
    } else if t[0] is None {
        0
    } else {
        1 + first_free_slot(t.drop_first())
    }
}

/// The first free slot lies in the table or just past it; it is free, and
/// every slot before it is taken.
pub proof fn lemma_first_free_slot<T>(t: Seq<Option<T>>)
    ensures
        0 <= first_free_slot(t) <= t.len(),
        first_free_slot(t) < t.len() ==> t[first_free_slot(t)] is None,
        forall|k: int| 0 <= k < first_free_slot(t) ==> #[trigger] t[k] is Some,
    decreases t.len(),
{
    if t.len() > 0 && t[0] is Some {
        lemma_first_free_slot(t.drop_first());
        assert forall|k: int| 0 <= k < first_free_slot(t) implies #[trigger] t[k] is Some by {
            if k > 0 {
                assert(t.drop_first()[k - 1] == t[k]);
            }
        }
    }
}

/// The first free slot of `table`, or its length if none is free.
pub fn find_free_slot<T>(table: &Vec<Option<T>>) -> (i: usize)
    ensures
        i == first_free_slot(table@),
        i <= table@.len(),
        i < table@.len() ==> table@[i as int] is None,
{
    proof {
        lemma_first_free_slot(table@);
    }
    let mut i: usize = 0;
    while i < table.len() && table[i].is_some()
        invariant
            i <= table@.len(),
            forall|k: int| 0 <= k < i ==> #[trigger] table@[k] is Some,
        decreases table@.len() - i,
    {
        i = i + 1;
    }
    i
}

proof fn lemma_index_of_unique(t: Seq<Option<Socket>>, i: int, r_addr: IPv4, l_port: u16, r_port: u16)
    requires
        0 <= i < t.len(),
        socket_matches(t[i], r_addr, l_port, r_port),
        forall|k: int| 0 <= k < t.len() && k != i ==> !socket_matches(#[trigger] t[k], r_addr, l_port, r_port),
    ensures
        socket_index_of(t, r_addr, l_port, r_port) == Some(i),
{
    assert(socket_matches(t[i], r_addr, l_port, r_port));
}

/// Index of the connection with the given endpoints.
pub fn get_socket(table: &Vec<Option<Socket>>, r_addr: IPv4, l_port: u16, r_port: u16) -> (idx: Option<usize>)
    ensures
        match idx {
            Some(i) => socket_index_of(table@, r_addr, l_port, r_port) == Some(i as int),
            None => socket_index_of(table@, r_addr, l_port, r_port) is None,
        },
        idx matches Some(i) ==> i < table@.len() && socket_matches(table@[i as int], r_addr, l_port, r_port),
{
    let mut i: usize = 0;
    while i < table.len()
        invariant
            i <= table@.len(),
            forall|k: int| 0 <= k < i ==> !socket_matches(#[trigger] table@[k], r_addr, l_port, r_port),
        decreases table@.len() - i,
    {
        match &table[i] {
            Some(sock) => {
                if sock.r_addr == r_addr && sock.l_port == l_port && sock.r_port == r_port {
                    proof {
                        let t = table@;
                        assert(socket_matches(t[i as int], r_addr, l_port, r_port));
                        let c = choose|j: int| 0 <= j < t.len() && #[trigger] socket_matches(t[j], r_addr, l_port, r_port)
                            && forall|k: int| 0 <= k < j ==> !socket_matches(#[trigger] t[k], r_addr, l_port, r_port);
                        assert(0 <= c < t.len() && socket_matches(t[c], r_addr, l_port, r_port)
                            && forall|k: int| 0 <= k < c ==> !socket_matches(#[trigger] t[k], r_addr, l_port, r_port));
                        if c < i {
                        } else if c > i {
                            assert(!socket_matches(t[i as int], r_addr, l_port, r_port));
                        }
                    }
                    return Some(i);
                }
            },
            None => {},
        }
        i = i + 1;
    }
    None
}

/// Records a new connection, unless one with the same endpoints exists.
/// Returns the connection's slot.
pub fn add_socket(table: &mut Vec<Option<Socket>>, r_addr: IPv4, l_port: u16, r_port: u16) -> (idx: Option<usize>)
    requires
        old(table)@.len() < usize::MAX,
    ensures
        socket_index_of(old(table)@, r_addr, l_port, r_port) is Some ==> idx is None && final(table)@ == old(table)@,
        socket_index_of(old(table)@, r_addr, l_port, r_port) is None ==> {
            let i = first_free_slot(old(table)@);
            &&& idx == Some(i as usize)
            &&& final(table)@.len() == if i < old(table)@.len() { old(table)@.len() } else { old(table)@.len() + 1 }
            &&& final(table)@[i] matches Some(s) && s.r_addr == r_addr && s.l_port == l_port && s.r_port == r_port
                && s.buffers@.len() == 0 && s.seq == 0 && s.ack == 0
            &&& forall|j: int| 0 <= j < old(table)@.len() && j != i ==> final(table)@[j] == old(table)@[j]
            &&& socket_index_of(final(table)@, r_addr, l_port, r_port) == Some(i)
        },
{
    if get_socket(table, r_addr, l_port, r_port).is_some() {
        return None;
    }
    let index = find_free_slot(table);
    let socket = Socket { r_addr, l_port, r_port, buffers: VecDeque::new(), seq: 0, ack: 0 };
    let ghost old_t = table@;
    proof {
        assert(socket_index_of(old_t, r_addr, l_port, r_port) is None);
        assert forall|k: int| 0 <= k < old_t.len() implies !socket_matches(#[trigger] old_t[k], r_addr, l_port, r_port) by {
            if socket_matches(old_t[k], r_addr, l_port, r_port) {
                assert(exists|j: int| 0 <= j < old_t.len() && #[trigger] socket_matches(old_t[j], r_addr, l_port, r_port));
            }
        }
    }
    if index == table.len() {
        table.push(Some(socket));
        proof {
            lemma_index_of_unique(table@, old_t.len() as int, r_addr, l_port, r_port);
        }
        Some(table.len() - 1)
    } else {
        table.set(index, Some(socket));
        proof {
            lemma_index_of_unique(table@, index as int, r_addr, l_port, r_port);
        }
        Some(index)
    }
}

/// Frees the slot of a connection.
pub fn remove_socket(table: &mut Vec<Option<Socket>>, index: usize)
    requires
        index < old(table)@.len(),
    ensures
        final(table)@ == old(table)@.update(index as int, None),
{
    table.set(index, None);
}

/// Appends a received packet to a connection's queue.
pub fn push_data(table: &mut Vec<Option<Socket>>, index: usize, data: Vec<u8>)
    requires
        index < old(table)@.len(),
        old(table)@[index as int] is Some,
    ensures
        final(table)@.len() == old(table)@.len(),
        forall|j: int| 0 <= j < old(table)@.len() && j != index ==> final(table)@[j] == old(table)@[j],
        final(table)@[index as int] matches Some(s) && old(table)@[index as int] matches Some(o)
            && s.r_addr == o.r_addr && s.l_port == o.l_port && s.r_port == o.r_port && s.seq == o.seq
            && s.ack == o.ack && s.buffers@ == o.buffers@.push(data),
{
    let mut slot: Option<Socket> = None;
    std::mem::swap(&mut slot, &mut table[index]);
    match slot {
        Some(mut sock) => {
            sock.buffers.push_back(data);
            table.set(index, Some(sock));
        },
        None => {},
    }
}

/// Takes the oldest received packet of a connection, if any.
pub fn pop_data(table: &mut Vec<Option<Socket>>, index: usize) -> (data: Option<Vec<u8>>)
    requires
        index < old(table)@.len(),
        old(table)@[index as int] is Some,
    ensures
        final(table)@.len() == old(table)@.len(),
        forall|j: int| 0 <= j < old(table)@.len() && j != index ==> final(table)@[j] == old(table)@[j],
        final(table)@[index as int] matches Some(s) && old(table)@[index as int] matches Some(o)
            && s.r_addr == o.r_addr && s.l_port == o.l_port && s.r_port == o.r_port && s.seq == o.seq
            && s.ack == o.ack && if o.buffers@.len() == 0 {
                data is None && s.buffers@ == o.buffers@
            } else {
                data == Some(o.buffers@[0]) && s.buffers@ == o.buffers@.drop_first()
            },
{
    let mut slot: Option<Socket> = None;
    std::mem::swap(&mut slot, &mut table[index]);
    match slot {
        Some(mut sock) => {
            let data = sock.buffers.pop_front();
            table.set(index, Some(sock));
            data
        },
        None => None,
    }
}

/// Records the sequence and acknowledgement numbers of a connection.
pub fn set_s_a_by_index(table: &mut Vec<Option<Socket>>, index: usize, seq: u32, ack: u32)
    requires
        index < old(table)@.len(),
        old(table)@[index as int] is Some,
    ensures
        final(table)@.len() == old(table)@.len(),
        forall|j: int| 0 <= j < old(table)@.len() && j != index ==> final(table)@[j] == old(table)@[j],
        final(table)@[index as int] matches Some(s) && old(table)@[index as int] matches Some(o)
            && s.r_addr == o.r_addr && s.l_port == o.l_port && s.r_port == o.r_port && s.seq == seq
            && s.ack == ack && s.buffers@ == o.buffers@,
{
    let mut slot: Option<Socket> = None;
    std::mem::swap(&mut slot, &mut table[index]);
    match slot {
        Some(mut sock) => {
            sock.ack = ack;
            sock.seq = seq;
            table.set(index, Some(sock));
        },
        None => {},
    }
}

/// The sequence and acknowledgement numbers of the connection in a slot, or
/// `None` if the slot is free.
pub fn get_s_by_index(table: &Vec<Option<Socket>>, index: usize) -> (sa: Option<(u32, u32)>)
    requires
        index < table@.len(),
    ensures
        match table@[index as int] {
            Some(s) => sa == Some((s.seq, s.ack)),
            None => sa is None,
        },
{
    match &table[index] {
        Some(x) => Some((x.seq, x.ack)),
        None => None,
    }
}

/// Law: a packet queue is first in, first out: after a packet is pushed onto
/// an empty queue, popping yields that packet and empties the queue.
pub proof fn lemma_socket_queue_fifo(q: Seq<Vec<u8>>, data: Vec<u8>)
    requires
        q.len() == 0,
    ensures
        q.push(data)[0] == data,
        q.push(data).drop_first() == q,
{
    assert(q.push(data).drop_first() =~= q);
}

} // verus!
