use netcode::buffer::Buffer;
use netcode::client::{Client, ClientEvent, ClientState};
use netcode::endpoint::{EndpointState, PeerAddress, ReadError, ReliableOrderedDatagramEndpoint};
use netcode::packet::{compute_checksum, PacketHeader, PacketType, PROTOCOL_VERSION};
use netcode::sequence::NetworkSeq;
use netcode::server::{Server, ServerEvent};
use netcode::sim::{Lobby, LobbyMessage};
use netcode::stream::{ReadStream, Streamable, WriteStream};

fn addr(port: u16) -> PeerAddress {
    PeerAddress { ip: 0x7f00_0001, port }
}

fn deliver(ep: &mut ReliableOrderedDatagramEndpoint, datagram: &[u8], now: u64) -> bool {
    let mut rs = ReadStream(Buffer::with_capacity(512));
    match rs.receive_packet(datagram) {
        Some(h) => {
            ep.receive_swap(h, &mut rs.0, now);
            true
        }
        None => false,
    }
}

fn flush(ep: &mut ReliableOrderedDatagramEndpoint, now: u64) -> Vec<Vec<u8>> {
    let mut out = Vec::new();
    match ep.send_outstanding(now, &mut out) {
        EndpointState::Running(_) => {}
        EndpointState::ConnectionTimeout => panic!("unexpected timeout"),
    }
    out
}

#[test]
fn checksum_round_trip_gives_back_the_header() {
    let mut a = ReliableOrderedDatagramEndpoint::new(addr(1));
    let seq = a.write_packet(PacketType::UserPayload, &mut 0xDEADBEEFu32);
    assert_eq!(seq.unwrap(), 0);
    let out = flush(&mut a, 0);
    assert_eq!(out.len(), 1);
    let d = &out[0];
    assert_eq!(d.len(), 20);
    let mut rs = ReadStream(Buffer::with_capacity(512));
    let h = rs.receive_packet(d).expect("valid packet");
    assert_eq!(h.version, PROTOCOL_VERSION);
    assert_eq!(h.packet_type, PacketType::UserPayload);
    assert_eq!(h.seq.unwrap(), 0);
    assert_eq!(h.ack.unwrap(), 0);
    assert_eq!(h.ack_bits, 0);
    assert_eq!(h.checksum, compute_checksum(d));
    assert_eq!(h.checksum, u32::from_le_bytes([d[0], d[1], d[2], d[3]]));
    let mut v = 0u32;
    assert!(v.stream(&mut rs));
    assert_eq!(v, 0xDEADBEEF);
}

#[test]
fn corrupted_packets_are_rejected() {
    let mut a = ReliableOrderedDatagramEndpoint::new(addr(1));
    a.write_packet(PacketType::UserPayload, &mut 7u8);
    let out = flush(&mut a, 0);
    let good = out[0].clone();
    let mut rs = ReadStream(Buffer::with_capacity(512));
    assert!(rs.receive_packet(&good).is_some());
    // a flipped payload byte breaks the checksum
    let mut bad = good.clone();
    bad[16] ^= 1;
    assert!(rs.receive_packet(&bad).is_none());
    // a wrong version
    let mut bad = good.clone();
    bad[4] = 2;
    assert!(rs.receive_packet(&bad).is_none());
    // an unknown type code
    let mut bad = good.clone();
    bad[6] = 9;
    assert!(rs.receive_packet(&bad).is_none());
    // too short for a header
    assert!(rs.receive_packet(&good[0..10]).is_none());
    // a keep-alive must be exactly 16 bytes
    let mut bad = good.clone();
    bad[6] = 4;
    assert!(rs.receive_packet(&bad).is_none());
}

#[test]
fn checksum_covers_the_protocol_id() {
    let mut w = WriteStream(Buffer::with_capacity(512));
    w.init_packet(PacketType::ConnectionRequest, NetworkSeq::wrap(0), NetworkSeq::wrap(0), 0);
    assert_eq!(&w.0.written_slice()[0..4], b"MAJG");
    w.finish_packet();
    let bytes = w.0.written_slice().to_vec();
    assert_eq!(bytes.len(), 16);
    let mut with_id = bytes.clone();
    with_id[0..4].copy_from_slice(b"MAJG");
    let crc = u32::from_le_bytes([bytes[0], bytes[1], bytes[2], bytes[3]]);
    assert_ne!(crc, u32::from_le_bytes(*b"MAJG"));
    assert_eq!(compute_checksum(&with_id), crc);
    assert_eq!(compute_checksum(&bytes), crc);
}

#[test]
fn header_default_and_new() {
    let h = PacketHeader::new(PacketType::UserPayload, NetworkSeq::wrap(3), NetworkSeq::wrap(2), 5);
    assert_eq!(h.checksum, u32::from_le_bytes(*b"MAJG"));
    assert_eq!(h.version, 1);
    assert_eq!(h.seq.unwrap(), 3);
    let d = PacketHeader::default();
    assert_eq!(d.packet_type, PacketType::ConnectionRequest);
    assert_eq!(d.seq.unwrap(), 0);
}

#[test]
fn reordered_messages_are_read_in_order() {
    let mut a = ReliableOrderedDatagramEndpoint::new(addr(1));
    let mut b = ReliableOrderedDatagramEndpoint::new(addr(2));
    a.write_packet(PacketType::UserPayload, &mut 10u32);
    a.write_packet(PacketType::UserPayload, &mut 11u32);
    a.write_packet(PacketType::UserPayload, &mut 12u32);
    let out = flush(&mut a, 0);
    assert_eq!(out.len(), 3);
    assert!(deliver(&mut b, &out[2], 1));
    assert_eq!(b.read_new::<u32>(), Ok(None));
    assert!(deliver(&mut b, &out[0], 1));
    assert_eq!(b.read_new::<u32>(), Ok(Some(10)));
    assert_eq!(b.read_new::<u32>(), Ok(None));
    assert!(deliver(&mut b, &out[1], 1));
    assert_eq!(b.read_new::<u32>(), Ok(Some(11)));
    assert_eq!(b.read_new::<u32>(), Ok(Some(12)));
    assert_eq!(b.read_new::<u32>(), Ok(None));
}

#[test]
fn duplicated_messages_are_read_once() {
    let mut a = ReliableOrderedDatagramEndpoint::new(addr(1));
    let mut b = ReliableOrderedDatagramEndpoint::new(addr(2));
    for mut v in 0..5u16 {
        a.write_packet(PacketType::UserPayload, &mut v);
    }
    let out = flush(&mut a, 0);
    let mut seen = Vec::new();
    for d in out.iter() {
        deliver(&mut b, d, 1);
        deliver(&mut b, d, 1);
        while let Ok(Some(v)) = b.read_new::<u16>() {
            seen.push(v);
        }
    }
    for d in out.iter() {
        deliver(&mut b, d, 2);
    }
    while let Ok(Some(v)) = b.read_new::<u16>() {
        seen.push(v);
    }
    assert_eq!(seen, vec![0, 1, 2, 3, 4]);
}

#[test]
fn keep_alives_are_skipped_by_readers() {
    let mut a = ReliableOrderedDatagramEndpoint::new(addr(1));
    let mut b = ReliableOrderedDatagramEndpoint::new(addr(2));
    // nothing written: the round sends a keep-alive
    let out = flush(&mut a, 0);
    assert_eq!(out.len(), 1);
    assert_eq!(out[0].len(), 16);
    assert_eq!(out[0][6], 4);
    assert!(deliver(&mut b, &out[0], 1));
    a.write_packet(PacketType::UserPayload, &mut 99u8);
    let out = flush(&mut a, 20);
    for d in out.iter() {
        deliver(&mut b, d, 21);
    }
    assert_eq!(b.read_new::<u8>(), Ok(Some(99)));
    assert_eq!(b.read_new::<u8>(), Ok(None));
}

#[test]
fn sequence_numbers_wrap_around_cleanly() {
    let mut a = ReliableOrderedDatagramEndpoint::new(addr(1));
    let mut b = ReliableOrderedDatagramEndpoint::new(addr(2));
    let mut got = Vec::new();
    let mut now = 0u64;
    let mut send_wraps = 0;
    let mut receive_wraps = 0;
    for mut i in 0..(64u32 + 10) {
        assert!(a.can_write());
        a.write_packet(PacketType::UserPayload, &mut i);
        for d in flush(&mut a, now).iter() {
            deliver(&mut b, d, now);
        }
        let before = b.first_receive_sequence().unwrap();
        while let Ok(Some(v)) = b.read_new::<u32>() {
            got.push(v);
        }
        if b.first_receive_sequence().unwrap() < before {
            receive_wraps += 1;
        }
        let before = a.first_send_sequence().unwrap();
        for d in flush(&mut b, now).iter() {
            deliver(&mut a, d, now);
        }
        if a.first_send_sequence().unwrap() < before {
            send_wraps += 1;
        }
        now += 20;
    }
    assert_eq!(got, (0..74).collect::<Vec<u32>>());
    assert!(send_wraps >= 1);
    assert!(receive_wraps >= 1);
    assert!(a.rtt_average_us() < 100_000);
}

#[test]
fn applying_an_ack_twice_is_applying_it_once() {
    let mut a = ReliableOrderedDatagramEndpoint::new(addr(1));
    let mut b = ReliableOrderedDatagramEndpoint::new(addr(2));
    a.write_packet(PacketType::UserPayload, &mut 1u8);
    a.write_packet(PacketType::UserPayload, &mut 2u8);
    for d in flush(&mut a, 0).iter() {
        deliver(&mut b, d, 0);
    }
    let acks = flush(&mut b, 10);
    assert_eq!(acks.len(), 1);
    let mut rs = ReadStream(Buffer::with_capacity(512));
    let h = rs.receive_packet(&acks[0]).unwrap();
    assert_eq!(h.ack.unwrap(), 1);
    assert_eq!(h.ack_bits & 1, 1);
    a.acknowledge(h.ack, h.ack_bits, 30);
    assert!(a.can_write());
    a.acknowledge(h.ack, h.ack_bits, 40);
    // both packets retired: the next round sends only a keep-alive
    let out = flush(&mut a, 50);
    assert_eq!(out.len(), 1);
    assert_eq!(out[0][6], 4);
}

#[test]
fn round_budget_limits_what_is_sent() {
    let mut a = ReliableOrderedDatagramEndpoint::new(addr(1));
    let big = ((0u64, (0u64, 0u64)), ((0u64, (0u64, 0u64)), (0u64, 0u64)));
    for _ in 0..10 {
        let mut m = big;
        a.write_packet(PacketType::UserPayload, &mut m);
    }
    let out = flush(&mut a, 0);
    // each packet costs 16 + 64 + 28 = 108 bytes of a 2000 byte budget
    assert_eq!(out[0].len(), 80);
    assert_eq!(out.len(), 10);
    let mut stats_round = Vec::new();
    let state = a.send_outstanding(10, &mut stats_round);
    match state {
        EndpointState::Running(stats) => {
            assert_eq!(stats.packets_created, 1);
            assert_eq!(stats.max_rtt_ms, 10);
        }
        EndpointState::ConnectionTimeout => panic!("no timeout yet"),
    }
}

#[test]
fn unanswered_packets_time_out() {
    let mut a = ReliableOrderedDatagramEndpoint::new(addr(1));
    a.write_packet(PacketType::UserPayload, &mut 1u8);
    let mut now = 0;
    loop {
        let mut out = Vec::new();
        match a.send_outstanding(now, &mut out) {
            EndpointState::Running(_) => assert!(now < 500),
            EndpointState::ConnectionTimeout => {
                assert_eq!(now, 500);
                break;
            }
        }
        now += 20;
    }
}

#[test]
fn lobby_seats() {
    let mut l = Lobby::new();
    l.add_player(0);
    l.add_player(3);
    assert_eq!(l.join_mask, 0b1001);
    l.remove_player(0);
    assert_eq!(l.join_mask, 0b1000);
    l.remove_player(5);
    assert_eq!(l.join_mask, 0b1000);
}

#[test]
fn lobby_messages_stream_both_ways() {
    let mut w = WriteStream(Buffer::with_capacity(8));
    let mut m = LobbyMessage::LobbyUpdated(Lobby { join_mask: 5 });
    assert!(m.stream(&mut w));
    let mut s = LobbyMessage::StartGame;
    assert!(s.stream(&mut w));
    assert_eq!(w.0.written_slice(), &[10, 5, 11]);
    let mut r = ReadStream(w.0);
    r.0.reset_reader(3);
    let mut x = LobbyMessage::StartGame;
    assert!(x.stream(&mut r));
    assert_eq!(x, LobbyMessage::LobbyUpdated(Lobby { join_mask: 5 }));
    let mut y = LobbyMessage::LobbyUpdated(Lobby { join_mask: 0 });
    assert!(y.stream(&mut r));
    assert_eq!(y, LobbyMessage::StartGame);
    assert!(!y.stream(&mut r));
}

#[test]
fn unknown_lobby_tag_is_refused() {
    let mut b = Buffer::with_capacity(4);
    b.write(12u8);
    b.reset_reader(1);
    let mut r = ReadStream(b);
    let mut m = LobbyMessage::StartGame;
    assert!(!m.stream(&mut r));
}

#[test]
fn writes_that_do_not_fit_are_refused() {
    let mut w = WriteStream(Buffer::with_capacity(3));
    let mut v = 0x01020304u32;
    assert!(!v.stream(&mut w));
    assert_eq!(w.0.written_size(), 0);
    let mut m = LobbyMessage::LobbyUpdated(Lobby { join_mask: 1 });
    assert!(m.stream(&mut w));
    assert_eq!(m.discriminant(), 10);
    assert_eq!(LobbyMessage::StartGame.discriminant(), 11);
}

struct Net {
    server: Server,
    clients: Vec<(PeerAddress, Client)>,
    now: u64,
    server_events: Vec<ServerEvent>,
    client_events: Vec<Vec<ClientEvent>>,
    drop_client_datagrams: usize,
    drop_all: bool,
}

impl Net {
    fn new(capacity: u8, n_clients: u16) -> Net {
        let server_addr = addr(4321);
        let mut clients = Vec::new();
        let mut client_events = Vec::new();
        for i in 0..n_clients {
            clients.push((addr(5000 + i), Client::new(server_addr)));
            client_events.push(Vec::new());
        }
        Net {
            server: Server::new(capacity),
            clients,
            now: 0,
            server_events: Vec::new(),
            client_events,
            drop_client_datagrams: 0,
            drop_all: false,
        }
    }

    fn tick(&mut self) {
        let server_addr = addr(4321);
        for (i, (a, c)) in self.clients.iter_mut().enumerate() {
            match c.update_state() {
                Ok(Some(e)) => self.client_events[i].push(e),
                Ok(None) => {}
                Err(t) => panic!("unexpected {:?} while connecting", t),
            }
            let mut out = Vec::new();
            if let Some(e) = c.send_frame(self.now, &mut out) {
                self.client_events[i].push(e);
            }
            for d in out.iter() {
                if self.drop_all {
                    continue;
                }
                if self.drop_client_datagrams > 0 {
                    self.drop_client_datagrams -= 1;
                    continue;
                }
                if let Some(e) = self.server.receive_datagram(d, *a, self.now) {
                    self.server_events.push(e);
                }
            }
        }
        let mut out = Vec::new();
        self.server_events.extend(self.server.send_frame(self.now, &mut out));
        for (to, datagrams) in out.iter() {
            for (_, c) in self.clients.iter_mut().filter(|(a, _)| a == to) {
                for d in datagrams.iter() {
                    if !self.drop_all {
                        c.receive_datagram(d, server_addr, self.now);
                    }
                }
            }
        }
        self.now += 20;
    }
}

#[test]
fn happy_handshake() {
    let mut net = Net::new(8, 1);
    for _ in 0..3 {
        net.tick();
    }
    let c = &net.clients[0].1;
    assert_eq!(c.current_state(), ClientState::Connected);
    assert_eq!(c.slot_index(), 0);
    assert_eq!(net.server_events, vec![ServerEvent::ClientConnected(0)]);
    assert_eq!(net.client_events[0], vec![ClientEvent::Connected]);
}

#[test]
fn lossy_handshake() {
    let mut net = Net::new(8, 1);
    net.drop_client_datagrams = 2;
    for _ in 0..20 {
        net.tick();
    }
    let c = &net.clients[0].1;
    assert_eq!(c.current_state(), ClientState::Connected);
    assert_eq!(c.slot_index(), 0);
    assert_eq!(net.server_events, vec![ServerEvent::ClientConnected(0)]);
}

#[test]
fn messages_flow_after_the_handshake() {
    let mut net = Net::new(8, 1);
    for _ in 0..4 {
        net.tick();
    }
    let mut msg = LobbyMessage::LobbyUpdated(Lobby { join_mask: 1 });
    assert!(net.server.broadcast(&mut msg));
    let mut up = 77u32;
    assert!(net.clients[0].1.write(&mut up));
    for _ in 0..3 {
        net.tick();
    }
    assert_eq!(
        net.clients[0].1.read_new::<LobbyMessage>(), Ok(Some(LobbyMessage::LobbyUpdated(Lobby { join_mask: 1 })))
    );
    assert_eq!(net.clients[0].1.read_new::<LobbyMessage>(), Ok(None));
    let mut v = 0u32;
    assert_eq!(net.server.read_into(0, &mut v), Ok(true));
    assert_eq!(v, 77);
    assert_eq!(net.server.read_into(0, &mut v), Ok(false));
    assert_eq!(net.server.read_new::<u32>(1), Ok(None));
    assert_eq!(net.server.read_new::<u32>(99), Ok(None));
    net.server.drop_incoming();
}

#[test]
fn both_sides_time_out_when_the_link_dies() {
    let mut net = Net::new(8, 1);
    for _ in 0..4 {
        net.tick();
    }
    assert_eq!(net.clients[0].1.current_state(), ClientState::Connected);
    net.drop_all = true;
    // the last tick whose datagrams went through
    let start = net.now - 20;
    let mut client_timeout_at = None;
    let mut server_timeout_at = None;
    for _ in 0..60 {
        net.tick();
        if client_timeout_at.is_none() && net.client_events[0].contains(&ClientEvent::ConnectionTimeout) {
            client_timeout_at = Some(net.now - 20 - start);
        }
        if server_timeout_at.is_none() && net.server_events.contains(&ServerEvent::ClientTimeout(0)) {
            server_timeout_at = Some(net.now - 20 - start);
        }
    }
    let c = client_timeout_at.expect("client timed out");
    let s = server_timeout_at.expect("server timed out");
    assert!(c >= 500 && c <= 750, "client after {c} ms");
    assert!(s >= 500 && s <= 750, "server after {s} ms");
}

#[test]
fn third_client_gets_no_slot() {
    let mut net = Net::new(2, 3);
    for _ in 0..10 {
        net.tick();
    }
    assert_eq!(net.clients[0].1.current_state(), ClientState::Connected);
    assert_eq!(net.clients[1].1.current_state(), ClientState::Connected);
    assert_eq!(net.clients[2].1.current_state(), ClientState::Connecting);
    assert_eq!(net.clients[0].1.slot_index(), 0);
    assert_eq!(net.clients[1].1.slot_index(), 1);
    assert_eq!(
        net.server_events,
        vec![ServerEvent::ClientConnected(0), ServerEvent::ClientConnected(1)]
    );
}

#[test]
fn a_full_send_window_refuses_more_packets() {
    let mut a = ReliableOrderedDatagramEndpoint::new(addr(1));
    for _ in 0..63 {
        assert!(a.can_write());
        a.create_packet(PacketType::UserPayload);
    }
    assert!(!a.can_write());
    assert_eq!(a.next_send_sequence().unwrap(), 63);
    assert_eq!(a.first_send_sequence().unwrap(), 0);
    let mut c = Client::new(addr(4321));
    let mut v = 5u8;
    for _ in 0..63 {
        assert!(c.write(&mut v));
    }
    assert!(!c.write(&mut v));
}

#[test]
fn largest_packet_fits_exactly() {
    let mut w = WriteStream(Buffer::with_capacity(512));
    w.init_packet(PacketType::UserPayload, NetworkSeq::wrap(0), NetworkSeq::wrap(0), 0);
    let mut v = 0u64;
    for _ in 0..62 {
        assert!(v.stream(&mut w));
    }
    assert!(!1u8.clone().stream(&mut w));
    w.finish_packet();
    assert_eq!(w.0.written_size(), 512);
    let bytes = w.0.written_slice().to_vec();
    let mut rs = ReadStream(Buffer::with_capacity(512));
    assert!(rs.receive_packet(&bytes).is_some());
}

#[test]
fn acknowledgement_bits_cover_earlier_packets() {
    let mut a = ReliableOrderedDatagramEndpoint::new(addr(1));
    let mut b = ReliableOrderedDatagramEndpoint::new(addr(2));
    for _ in 0..5 {
        a.create_packet(PacketType::UserPayload);
    }
    let out = flush(&mut a, 0);
    // packet 2 is lost
    for (k, d) in out.iter().enumerate() {
        if k != 2 {
            deliver(&mut b, d, 0);
        }
    }
    let acks = flush(&mut b, 0);
    let mut rs = ReadStream(Buffer::with_capacity(512));
    let h = rs.receive_packet(&acks[0]).unwrap();
    assert_eq!(h.ack.unwrap(), 4);
    // bit i: packet 4 - (i + 1)
    assert_eq!(h.ack_bits & 0b1111, 0b1101);
}

#[test]
fn round_trip_time_feeds_the_average() {
    let mut a = ReliableOrderedDatagramEndpoint::new(addr(1));
    let mut b = ReliableOrderedDatagramEndpoint::new(addr(2));
    a.write_packet(PacketType::UserPayload, &mut 1u8);
    for d in flush(&mut a, 100).iter() {
        deliver(&mut b, d, 100);
    }
    for d in flush(&mut b, 110).iter() {
        deliver(&mut a, d, 130);
    }
    // a 30 ms round trip weighted by one tenth
    assert_eq!(a.rtt_average_us(), 3000);
}

#[test]
fn a_foreign_packet_at_the_cursor_is_reported() {
    let mut a = ReliableOrderedDatagramEndpoint::new(addr(1));
    let mut b = ReliableOrderedDatagramEndpoint::new(addr(2));
    a.create_packet(PacketType::ConnectionRequest);
    a.write_packet(PacketType::UserPayload, &mut 3u8);
    for d in flush(&mut a, 0).iter() {
        deliver(&mut b, d, 0);
    }
    let mut v = 0u8;
    assert_eq!(b.read_into(&mut v), Err(ReadError::UnexpectedPacket(PacketType::ConnectionRequest)));
    // left in place: reported again
    assert_eq!(b.read_new::<u8>(), Err(ReadError::UnexpectedPacket(PacketType::ConnectionRequest)));
    assert_eq!(v, 0);
}

#[test]
fn dropping_ready_messages_empties_the_queue() {
    let mut net = Net::new(8, 1);
    for _ in 0..4 {
        net.tick();
    }
    for _ in 0..3 {
        let mut m = 9u8;
        assert!(net.clients[0].1.write(&mut m));
    }
    net.tick();
    net.server.drop_incoming();
    assert_eq!(net.server.read_new::<u8>(0), Ok(None));
}

#[test]
fn a_client_that_timed_out_can_connect_again() {
    let mut net = Net::new(8, 1);
    for _ in 0..4 {
        net.tick();
    }
    net.drop_all = true;
    for _ in 0..40 {
        net.tick();
    }
    assert!(net.client_events[0].contains(&ClientEvent::ConnectionTimeout));
    assert!(net.server_events.contains(&ServerEvent::ClientTimeout(0)));
    net.drop_all = false;
    for _ in 0..4 {
        net.tick();
    }
    assert_eq!(net.clients[0].1.current_state(), ClientState::Connected);
    assert_eq!(net.server_events.last(), Some(&ServerEvent::ClientConnected(0)));
}

#[test]
fn a_round_reports_and_resets_the_receive_counters() {
    let mut a = ReliableOrderedDatagramEndpoint::new(addr(1));
    let mut b = ReliableOrderedDatagramEndpoint::new(addr(2));
    a.write_packet(PacketType::UserPayload, &mut 1u32);
    a.write_packet(PacketType::UserPayload, &mut 2u32);
    let out = flush(&mut a, 0);
    for d in out.iter() {
        deliver(&mut b, d, 0);
    }
    deliver(&mut b, &out[0], 0);
    let mut sent = Vec::new();
    match b.send_outstanding(5, &mut sent) {
        EndpointState::Running(stats) => {
            assert_eq!(stats.packets_received, 3);
            // the copy of an unread packet is kept again
            assert_eq!(stats.new_packets_received, 3);
            assert_eq!(stats.own_bytes_received, 60);
            assert_eq!(stats.total_bytes_received, 60 + 3 * 28);
            assert_eq!(stats.packets_created, 1);
            assert_eq!(stats.max_rtt_ms, 0);
        }
        EndpointState::ConnectionTimeout => panic!("no timeout"),
    }
    let mut sent = Vec::new();
    match b.send_outstanding(25, &mut sent) {
        EndpointState::Running(stats) => {
            assert_eq!(stats.packets_received, 0);
            assert_eq!(stats.own_bytes_received, 0);
            // the keep-alive of the first round waits for its acknowledgement
            assert_eq!(stats.max_rtt_ms, 20);
        }
        EndpointState::ConnectionTimeout => panic!("no timeout"),
    }
}

#[test]
fn server_keeps_its_capacity() {
    let s = Server::new(3);
    assert_eq!(s.capacity, 3);
    assert_eq!(s.slot_count(), 3);
}

#[test]
fn a_malformed_payload_is_reported_and_consumed() {
    let mut a = ReliableOrderedDatagramEndpoint::new(addr(1));
    let mut b = ReliableOrderedDatagramEndpoint::new(addr(2));
    a.write_packet(PacketType::UserPayload, &mut 7u8);
    a.write_packet(PacketType::UserPayload, &mut 12u8);
    for d in flush(&mut a, 0).iter() {
        deliver(&mut b, d, 0);
    }
    let mut v = 0xAABBCCDDu32;
    assert_eq!(b.read_into(&mut v), Err(ReadError::MalformedPayload));
    assert_eq!(v, 0xAABBCCDD);
    let mut m = LobbyMessage::StartGame;
    // tag 12 names no lobby message
    assert_eq!(b.read_into(&mut m), Err(ReadError::MalformedPayload));
    assert_eq!(m, LobbyMessage::StartGame);
    assert_eq!(b.read_new::<u8>(), Ok(None));
}

#[test]
fn a_request_acknowledging_one_is_accepted() {
    let mut other = ReliableOrderedDatagramEndpoint::new(addr(9));
    let mut x = ReliableOrderedDatagramEndpoint::new(addr(5000));
    other.create_packet(PacketType::UserPayload);
    other.create_packet(PacketType::UserPayload);
    for d in flush(&mut other, 0).iter() {
        deliver(&mut x, d, 0);
    }
    x.create_packet(PacketType::ConnectionRequest);
    let out = flush(&mut x, 0);
    let mut rs = ReadStream(Buffer::with_capacity(512));
    let h = rs.receive_packet(&out[0]).unwrap();
    assert_eq!(h.seq.unwrap(), 0);
    assert_eq!(h.ack.unwrap(), 1);
    let mut server = Server::new(8);
    assert_eq!(server.receive_datagram(&out[0], addr(5000), 0), Some(ServerEvent::ClientConnected(0)));
    let mut sent = Vec::new();
    server.send_frame(10, &mut sent);
    assert_eq!(sent.len(), 1);
    assert_eq!(sent[0].1.len(), 1);
    assert_eq!(sent[0].1[0].len(), 17);
    assert_eq!(sent[0].1[0][6], 3);
    assert_eq!(sent[0].1[0][16], 0);
}

#[test]
fn broadcast_reports_a_full_window() {
    let mut net = Net::new(8, 1);
    for _ in 0..4 {
        net.tick();
    }
    let mut v = 1u8;
    let mut all = true;
    for _ in 0..70 {
        all = all && net.server.broadcast(&mut v);
    }
    assert!(!all);
}
