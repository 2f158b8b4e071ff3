//! What the kernel does with a packet the network device received, once the
//! packet has been parsed: the connection and listening tables it updates,
//! and the reply the caller builds and sends.
use vstd::prelude::*;
use crate::net::IPv4;
use crate::net::port_table::{accepting, check_accept, listen_table_wf, Port};
use crate::net::socket::{get_socket, push_data, set_s_a_by_index, socket_index_of, Socket};

verus! {

/// The fields of a received packet that the kernel acts on.
pub enum PacketInfo {
    /// An ARP request for this host's hardware address.
    Arp,
    /// A UDP datagram.
    Udp { source_ip: IPv4, source_port: u16, dest_port: u16, data: Vec<u8> },
    /// A TCP segment with its control flags.
    Tcp {
        source_ip: IPv4,
        source_port: u16,
        dest_port: u16,
        syn: bool,
        fin: bool,
        ack: bool,
        seq: u32,
        ack_num: u32,
        data: Vec<u8>,
    },
    /// Any other packet.
    Other,
}

/// What the caller sends or sets up after a packet.
#[derive(Copy, Clone, Debug, PartialEq, Eq, Structural)]
pub enum NetAction<T> {
    /// Nothing to send.
    Nothing,
    /// Answer the ARP request with this host's address.
    ReplyArp,
    /// A listener took the connection request: set the connection up for
    /// thread `task` and answer with SYN and ACK.
    AcceptConnection { task: T },
    /// The peer closes the connection: answer with an ACK, then with ACK and
    /// FIN.
    ReplyFin,
}

/// The connection table `t1` is `t0` after a packet from `r_addr:r_port` to
/// local port `l_port` carrying `data` reached it: the connection with those
/// endpoints, if there is one, has `data` queued and, where `sa` is given,
/// takes its sequence and acknowledgement numbers; otherwise nothing changes.
pub open spec fn delivered(
    t0: Seq<Option<Socket>>,
    t1: Seq<Option<Socket>>,
    r_addr: IPv4,
    l_port: u16,
    r_port: u16,
    data: Vec<u8>,
    sa: Option<(u32, u32)>,
) -> bool {
    match socket_index_of(t0, r_addr, l_port, r_port) {
        None => t1 == t0,
        Some(i) => {
            &&& t1.len() == t0.len()
            &&& forall|j: int| 0 <= j < t0.len() && j != i ==> #[trigger] t1[j] == t0[j]
            &&& t1[i] matches Some(s) && t0[i] matches Some(o) && s.r_addr == o.r_addr && s.l_port == o.l_port
                && s.r_port == o.r_port && s.buffers@ == o.buffers@.push(data) && match sa {
                Some((q, a)) => s.seq == q && s.ack == a,
                None => s.seq == o.seq && s.ack == o.ack,
            }
        },
    }
}

/// Queues `data` on the connection with the given endpoints, if there is
/// one, and sets its sequence and acknowledgement numbers where `sa` is
/// given.
fn deliver(sockets: &mut Vec<Option<Socket>>, r_addr: IPv4, l_port: u16, r_port: u16, data: Vec<u8>, sa: Option<(u32, u32)>)
    ensures
        delivered(old(sockets)@, final(sockets)@, r_addr, l_port, r_port, data, sa),
{
    match get_socket(sockets, r_addr, l_port, r_port) {
        Some(index) => {
            let ghost t0 = sockets@;
            push_data(sockets, index, data);
            match sa {
                Some((q, a)) => set_s_a_by_index(sockets, index, q, a),
                None => {},
            }
            proof {
                assert forall|j: int| 0 <= j < t0.len() && j != index implies #[trigger] sockets@[j] == t0[j] by {}
            }
        },
        None => {},
    }
}

/// Acts on a received packet: an ARP request is answered; a UDP datagram is
/// queued on its connection; a TCP connection request (SYN) goes to the
/// first listener ready to accept on its port, which is then answered; a
/// TCP segment closing the connection (FIN) is answered and, like a segment
/// carrying data, queued on its connection with its sequence and
/// acknowledgement numbers; a bare acknowledgement without data is dropped.
pub fn net_packet_step<T>(sockets: &mut Vec<Option<Socket>>, ports: &mut Vec<Option<Port<T>>>, p: PacketInfo) -> (a: NetAction<T>)
    requires
        listen_table_wf(old(ports)@),
    ensures
        listen_table_wf(final(ports)@),
        match p {
            PacketInfo::Arp => a == NetAction::<T>::ReplyArp && final(sockets)@ == old(sockets)@ && final(ports)@ == old(ports)@,
            PacketInfo::Other => a == NetAction::<T>::Nothing && final(sockets)@ == old(sockets)@ && final(ports)@ == old(ports)@,
            PacketInfo::Udp { source_ip, source_port, dest_port, data } => {
                &&& a == NetAction::<T>::Nothing
                &&& final(ports)@ == old(ports)@
                &&& delivered(old(sockets)@, final(sockets)@, source_ip, dest_port, source_port, data, None)
            },
            PacketInfo::Tcp { source_ip, source_port, dest_port, syn, fin, ack, seq, ack_num, data } => {
                if syn {
                    &&& final(sockets)@ == old(sockets)@
                    &&& final(ports)@.len() == old(ports)@.len()
                    &&& (forall|j: int| 0 <= j < old(ports)@.len() ==> !accepting(#[trigger] old(ports)@[j], dest_port))
                        ==> a == NetAction::<T>::Nothing && final(ports)@ == old(ports)@
                    &&& (exists|j: int| 0 <= j < old(ports)@.len() && accepting(#[trigger] old(ports)@[j], dest_port))
                        ==> exists|i: int| 0 <= i < old(ports)@.len() && {
                        &&& accepting(old(ports)@[i], dest_port)
                        &&& forall|k: int| 0 <= k < i ==> !accepting(#[trigger] old(ports)@[k], dest_port)
                        &&& old(ports)@[i] matches Some(o) && o.schedule matches Some(t)
                            && a == (NetAction::AcceptConnection { task: t })
                            && (final(ports)@[i] matches Some(q) && q.port == o.port && !q.receivable && q.schedule is None)
                        &&& forall|j: int| 0 <= j < old(ports)@.len() && j != i ==> final(ports)@[j] == old(ports)@[j]
                    }
                } else if !fin && ack && data@.len() == 0 {
                    a == NetAction::<T>::Nothing && final(sockets)@ == old(sockets)@ && final(ports)@ == old(ports)@
                } else {
                    &&& a == if fin { NetAction::<T>::ReplyFin } else { NetAction::<T>::Nothing }
                    &&& final(ports)@ == old(ports)@
                    &&& delivered(old(sockets)@, final(sockets)@, source_ip, dest_port, source_port, data, Some((seq, ack_num)))
                }
            },
        },
{
    match p {
        PacketInfo::Arp => NetAction::ReplyArp,
        PacketInfo::Other => NetAction::Nothing,
        PacketInfo::Udp { source_ip, source_port, dest_port, data } => {
            deliver(sockets, source_ip, dest_port, source_port, data, None);
            NetAction::Nothing
        },
        PacketInfo::Tcp { source_ip, source_port, dest_port, syn, fin, ack, seq, ack_num, data } => {
            if syn {
                return match check_accept(ports, dest_port) {
                    Some(task) => NetAction::AcceptConnection { task },
                    None => NetAction::Nothing,
                };
            }
            let reply_fin = fin;
            if !fin && ack && data.len() == 0 {
                return NetAction::Nothing;
            }
            deliver(sockets, source_ip, dest_port, source_port, data, Some((seq, ack_num)));
            if reply_fin {
                NetAction::ReplyFin
            } else {
                NetAction::Nothing
            }
        },
    }
}

} // verus!
