use std::collections::VecDeque;
use rcore_os::net::port_table::{accept, check_accept, listen, port_acceptable, Port, PortFd};
use rcore_os::net::socket::{add_socket, find_free_slot, get_s_by_index, get_socket, pop_data, push_data,
    remove_socket, set_s_a_by_index, Socket};
use rcore_os::net::IPv4;
use rcore_os::net::dispatch::{net_packet_step, NetAction, PacketInfo};

#[test]
fn sockets_take_first_free_slot() {
    let mut t: Vec<Option<Socket>> = Vec::new();
    let a = IPv4(0x0a00_0002);
    assert_eq!(find_free_slot(&t), 0);
    assert_eq!(add_socket(&mut t, a, 80, 5000), Some(0));
    assert_eq!(add_socket(&mut t, a, 80, 5001), Some(1));
    assert_eq!(get_socket(&t, a, 80, 5001), Some(1));
    assert_eq!(get_socket(&t, a, 81, 5001), None);
    remove_socket(&mut t, 0);
    assert_eq!(find_free_slot(&t), 0);
    assert_eq!(get_socket(&t, a, 80, 5000), None);
    assert_eq!(add_socket(&mut t, a, 22, 6000), Some(0));
    assert_eq!(get_socket(&t, a, 22, 6000), Some(0));
}

#[test]
fn socket_packets_first_in_first_out() {
    let mut t: Vec<Option<Socket>> = Vec::new();
    let i = add_socket(&mut t, IPv4(1), 1, 2).unwrap();
    assert_eq!(pop_data(&mut t, i), None);
    push_data(&mut t, i, vec![1, 2]);
    push_data(&mut t, i, vec![3]);
    assert_eq!(pop_data(&mut t, i), Some(vec![1, 2]));
    assert_eq!(pop_data(&mut t, i), Some(vec![3]));
    assert_eq!(pop_data(&mut t, i), None);
}

#[test]
fn socket_sequence_numbers() {
    let mut t: Vec<Option<Socket>> = vec![None, Some(Socket {
        r_addr: IPv4(7),
        l_port: 1,
        r_port: 2,
        buffers: VecDeque::new(),
        seq: 0,
        ack: 0,
    })];
    assert_eq!(get_s_by_index(&t, 1), Some((0, 0)));
    set_s_a_by_index(&mut t, 1, 100, 200);
    assert_eq!(get_s_by_index(&t, 1), Some((100, 200)));
    assert_eq!(get_s_by_index(&t, 0), None);
}

#[test]
fn listen_accept_and_check() {
    let mut ports: Vec<Option<Port<&str>>> = Vec::new();
    let li = listen(&mut ports, 80).unwrap();
    assert_eq!(li, 0);
    assert_eq!(PortFd::new(li).0, 0);
    assert!(!port_acceptable(&ports, li));
    assert_eq!(check_accept(&mut ports, 80), None);
    accept(&mut ports, li, "task-1");
    assert!(port_acceptable(&ports, li));
    assert_eq!(check_accept(&mut ports, 81), None);
    assert_eq!(check_accept(&mut ports, 80), Some("task-1"));
    assert!(!port_acceptable(&ports, li));
    assert_eq!(listen(&mut ports, 443), Some(1));
}

#[test]
fn received_packets_update_tables_and_pick_replies() {
    let mut sockets: Vec<Option<Socket>> = Vec::new();
    let mut ports: Vec<Option<Port<&str>>> = Vec::new();
    let peer = IPv4(0x0a00_0002);
    assert_eq!(add_socket(&mut sockets, peer, 80, 5000), Some(0));
    assert_eq!(net_packet_step(&mut sockets, &mut ports, PacketInfo::Arp), NetAction::ReplyArp);
    assert_eq!(net_packet_step(&mut sockets, &mut ports, PacketInfo::Other), NetAction::Nothing);
    // a datagram for the connection is queued; one for no connection is dropped
    let udp = PacketInfo::Udp { source_ip: peer, source_port: 5000, dest_port: 80, data: vec![1, 2] };
    assert_eq!(net_packet_step(&mut sockets, &mut ports, udp), NetAction::Nothing);
    let stray = PacketInfo::Udp { source_ip: peer, source_port: 5001, dest_port: 80, data: vec![9] };
    assert_eq!(net_packet_step(&mut sockets, &mut ports, stray), NetAction::Nothing);
    assert_eq!(pop_data(&mut sockets, 0), Some(vec![1, 2]));
    assert_eq!(pop_data(&mut sockets, 0), None);
    let tcp = |syn, fin, ack, data: Vec<u8>| PacketInfo::Tcp {
        source_ip: peer, source_port: 5000, dest_port: 80, syn, fin, ack, seq: 7, ack_num: 11, data,
    };
    // a bare acknowledgement is dropped; data is queued with seq/ack
    assert_eq!(net_packet_step(&mut sockets, &mut ports, tcp(false, false, true, vec![])), NetAction::Nothing);
    assert_eq!(get_s_by_index(&sockets, 0), Some((0, 0)));
    assert_eq!(net_packet_step(&mut sockets, &mut ports, tcp(false, false, true, vec![3])), NetAction::Nothing);
    assert_eq!(get_s_by_index(&sockets, 0), Some((7, 11)));
    assert_eq!(pop_data(&mut sockets, 0), Some(vec![3]));
    // closing is answered
    assert_eq!(net_packet_step(&mut sockets, &mut ports, tcp(false, true, true, vec![])), NetAction::ReplyFin);
    // a connection request reaches a listener only once a thread waits on it
    assert_eq!(listen(&mut ports, 80), Some(0));
    assert_eq!(net_packet_step(&mut sockets, &mut ports, tcp(true, false, false, vec![])), NetAction::Nothing);
    accept(&mut ports, 0, "server");
    assert_eq!(net_packet_step(&mut sockets, &mut ports, tcp(true, false, false, vec![])),
        NetAction::AcceptConnection { task: "server" });
    assert!(!port_acceptable(&ports, 0));
}
