use rusty_enet::host::Host;
use rusty_enet::packet::{Address, Packet};
use rusty_enet::peer::{Event, PeerID, PeerState};

const SERVER: Address = Address { host: 1, port: 6060 };
const CLIENT: Address = Address { host: 2, port: 7070 };

/// Moves every datagram that `from` has ready at `now` to `to`, unless
/// `lose` says that the datagram with the given running number is lost.
fn carry(
    from: &mut Host,
    from_address: Address,
    to: &mut Host,
    now: u32,
    sent: &mut usize,
    lose: &dyn Fn(usize) -> bool,
) {
    while let Some(out) = from.next_datagram(now) {
        let number = *sent;
        *sent += 1;
        if !lose(number) {
            to.receive(from_address, &out.bytes, now);
        }
    }
}

/// One tick of both hosts at `now` over a link without loss.
fn tick(client: &mut Host, server: &mut Host, now: u32) {
    let mut sent = 0;
    client.service_timeouts(now);
    server.service_timeouts(now);
    carry(client, CLIENT, server, now, &mut sent, &|_| false);
    carry(server, SERVER, client, now, &mut sent, &|_| false);
}

/// Every event that the host has for its application.
fn drain(host: &mut Host) -> Vec<Event> {
    let mut events = Vec::new();
    while let Some(event) = host.poll_event() {
        events.push(event);
    }
    events
}

/// A client and a server that have set up a session, with the time at which
/// they have.
fn connected(mtu: u32) -> (Host, Host, u32) {
    let mut client = Host::new(1, 2, 0, 0, 17).unwrap();
    let mut server = Host::new(32, 2, 0, 0, 99).unwrap();
    client.set_mtu(mtu);
    server.set_mtu(mtu);
    assert_eq!(client.connect(SERVER, 2, 0), Ok(PeerID(0)));
    let mut now = 1000;
    let mut client_events = Vec::new();
    let mut server_events = Vec::new();
    for _ in 0..10 {
        tick(&mut client, &mut server, now);
        client_events.extend(drain(&mut client));
        server_events.extend(drain(&mut server));
        now += 10;
    }
    assert_eq!(client_events, vec![Event::Connect { peer: PeerID(0), data: 0 }]);
    assert_eq!(server_events, vec![Event::Connect { peer: PeerID(0), data: 0 }]);
    assert_eq!(client.peer(PeerID(0)).unwrap().state(), PeerState::Connected);
    assert_eq!(server.peer(PeerID(0)).unwrap().state(), PeerState::Connected);
    (client, server, now)
}

#[test]
fn echo() {
    let (mut client, mut server, mut now) = connected(1392);
    client.send(PeerID(0), 0, &Packet::reliable(b"ping".to_vec())).unwrap();
    tick(&mut client, &mut server, now);
    now += 10;
    let received = drain(&mut server);
    assert_eq!(
        received,
        vec![Event::Receive {
            peer: PeerID(0),
            channel_id: 0,
            packet: Packet::reliable(vec![0x70, 0x69, 0x6E, 0x67]),
        }]
    );
    for event in received {
        if let Event::Receive { peer, channel_id, packet } = event {
            server.send(peer, channel_id, &packet).unwrap();
        }
    }
    tick(&mut client, &mut server, now);
    now += 10;
    assert_eq!(
        drain(&mut client),
        vec![Event::Receive {
            peer: PeerID(0),
            channel_id: 0,
            packet: Packet::reliable(b"ping".to_vec()),
        }]
    );
    client.disconnect(PeerID(0), 0).unwrap();
    assert_eq!(client.peer(PeerID(0)).unwrap().state(), PeerState::Disconnecting);
    let mut client_events = Vec::new();
    let mut server_events = Vec::new();
    for _ in 0..5 {
        tick(&mut client, &mut server, now);
        now += 10;
        client_events.extend(drain(&mut client));
        server_events.extend(drain(&mut server));
    }
    assert_eq!(client_events, vec![Event::Disconnect { peer: PeerID(0), data: 0 }]);
    assert_eq!(server_events, vec![Event::Disconnect { peer: PeerID(0), data: 0 }]);
    assert_eq!(client.peer(PeerID(0)).unwrap().state(), PeerState::Disconnected);
    assert_eq!(server.peer(PeerID(0)).unwrap().state(), PeerState::Disconnected);
}

#[test]
fn fragmented_reliable() {
    let (mut client, mut server, now) = connected(512);
    assert_eq!(client.peer(PeerID(0)).unwrap().session().mtu, 512);
    assert_eq!(server.peer(PeerID(0)).unwrap().session().mtu, 512);
    let mut payload = Vec::new();
    for _ in 0..16 {
        for byte in 0..=255u8 {
            payload.push(byte);
        }
    }
    assert_eq!(payload.len(), 4096);
    client.send(PeerID(0), 1, &Packet::reliable(payload.clone())).unwrap();
    let mut events = Vec::new();
    for step in 0..20 {
        tick(&mut client, &mut server, now + 10 * step);
        events.extend(drain(&mut server));
    }
    assert_eq!(
        events,
        vec![Event::Receive { peer: PeerID(0), channel_id: 1, packet: Packet::reliable(payload) }]
    );
}

#[test]
fn timeout() {
    let (mut client, _server, start) = connected(1392);
    let mut now = start;
    let mut first_ping = None;
    let mut surfaced = None;
    while now < start + 40_000 {
        client.service_timeouts(now);
        while let Some(_lost) = client.next_datagram(now) {
            if first_ping.is_none() {
                first_ping = Some(now);
            }
        }
        let state = client.peer(PeerID(0)).unwrap().state();
        if state == PeerState::Zombie && surfaced.is_none() {
            surfaced = Some(now);
            assert_eq!(drain(&mut client), vec![Event::Disconnect { peer: PeerID(0), data: 0 }]);
            assert_eq!(client.peer(PeerID(0)).unwrap().state(), PeerState::Disconnected);
        } else if surfaced.is_none() {
            assert_eq!(state, PeerState::Connected);
            assert_eq!(drain(&mut client), vec![]);
        }
        now += 100;
    }
    let first_ping = first_ping.unwrap();
    assert_eq!(surfaced, Some(first_ping + 30_000));
}

#[test]
fn reconnect_with_session_reuse() {
    let (mut client, mut server, mut now) = connected(1392);
    let first_nonce = client.peer(PeerID(0)).unwrap().session().connect_id;
    assert_eq!(server.peer(PeerID(0)).unwrap().session().connect_id, first_nonce);
    let first_session = server.peer(PeerID(0)).unwrap().session().incoming_session_id;
    client.disconnect(PeerID(0), 0).unwrap();
    for _ in 0..5 {
        tick(&mut client, &mut server, now);
        now += 10;
    }
    assert_eq!(drain(&mut client), vec![Event::Disconnect { peer: PeerID(0), data: 0 }]);
    assert_eq!(drain(&mut server), vec![Event::Disconnect { peer: PeerID(0), data: 0 }]);
    assert_eq!(client.connect(SERVER, 2, 0), Ok(PeerID(0)));
    let mut server_events = Vec::new();
    for _ in 0..10 {
        tick(&mut client, &mut server, now);
        now += 10;
        server_events.extend(drain(&mut server));
        drain(&mut client);
    }
    assert_eq!(server_events, vec![Event::Connect { peer: PeerID(0), data: 0 }]);
    let second_nonce = client.peer(PeerID(0)).unwrap().session().connect_id;
    assert_ne!(first_nonce, second_nonce);
    assert_eq!(server.peer(PeerID(0)).unwrap().session().connect_id, second_nonce);
    assert_ne!(server.peer(PeerID(0)).unwrap().session().incoming_session_id, first_session);
    assert_eq!(client.peer(PeerID(0)).unwrap().state(), PeerState::Connected);
}

#[test]
fn slot_exhaustion() {
    let mut server = Host::new(2, 2, 0, 0, 5).unwrap();
    let addresses = [
        Address { host: 10, port: 1 },
        Address { host: 11, port: 1 },
        Address { host: 12, port: 1 },
    ];
    let mut clients = vec![
        Host::new(1, 2, 0, 0, 1).unwrap(),
        Host::new(1, 2, 0, 0, 2).unwrap(),
        Host::new(1, 2, 0, 0, 3).unwrap(),
    ];
    let mut events: Vec<Vec<Event>> = vec![Vec::new(), Vec::new(), Vec::new()];
    let mut answered = [0usize; 3];
    let mut now = 0;
    clients[0].connect(SERVER, 2, 0).unwrap();
    clients[1].connect(SERVER, 2, 0).unwrap();
    while now < 31_000 {
        if now == 200 {
            clients[2].connect(SERVER, 2, 0).unwrap();
        }
        server.service_timeouts(now);
        for (i, client) in clients.iter_mut().enumerate() {
            client.service_timeouts(now);
            while let Some(out) = client.next_datagram(now) {
                server.receive(addresses[i], &out.bytes, now);
            }
        }
        while let Some(out) = server.next_datagram(now) {
            for (i, client) in clients.iter_mut().enumerate() {
                if out.address == addresses[i] {
                    answered[i] += 1;
                    client.receive(SERVER, &out.bytes, now);
                }
            }
        }
        drain(&mut server);
        for (i, client) in clients.iter_mut().enumerate() {
            events[i].extend(drain(client));
        }
        now += 100;
    }
    assert_eq!(events[0], vec![Event::Connect { peer: PeerID(0), data: 0 }]);
    assert_eq!(events[1], vec![Event::Connect { peer: PeerID(0), data: 0 }]);
    assert!(answered[0] > 0 && answered[1] > 0);
    assert_eq!(answered[2], 0);
    assert!(!events[2].iter().any(|event| matches!(event, Event::Connect { .. })));
    assert_eq!(events[2], vec![Event::Disconnect { peer: PeerID(0), data: 0 }]);
    assert_eq!(clients[2].peer(PeerID(0)).unwrap().state(), PeerState::Disconnected);
    assert_eq!(server.peer(PeerID(0)).unwrap().state(), PeerState::Connected);
    assert_eq!(server.peer(PeerID(1)).unwrap().state(), PeerState::Connected);
}

#[test]
fn throttle_drop_under_loss() {
    let (mut client, mut server, start) = connected(1392);
    let interval = 100;
    client.set_throttle(PeerID(0), interval, 1, 16);
    let scale = rusty_enet::consts::PEER_PACKET_THROTTLE_SCALE;
    assert_eq!(client.peer(PeerID(0)).unwrap().throttle().value, scale);
    let mut sent = 0usize;
    let mut now = start;
    let mut delivered = 0;
    let mut queued = 0;
    let mut lowest = scale;
    while now < start + 10 * interval {
        client.send(PeerID(0), 0, &Packet::reliable(vec![1; 8])).unwrap();
        client.send(PeerID(0), 0, &Packet::unreliable(vec![2; 8])).unwrap();
        queued += 1;
        client.service_timeouts(now);
        server.service_timeouts(now);
        carry(&mut client, CLIENT, &mut server, now, &mut sent, &|n| n % 10 < 3);
        let mut back = 0;
        carry(&mut server, SERVER, &mut client, now, &mut back, &|_| false);
        for event in drain(&mut server) {
            if let Event::Receive { packet, .. } = event {
                if !packet.flags().reliable {
                    delivered += 1;
                }
            }
        }
        lowest = lowest.min(client.peer(PeerID(0)).unwrap().throttle().value);
        now += 10;
    }
    let peer = client.peer(PeerID(0)).unwrap();
    assert_eq!(lowest, scale - 16);
    assert!(peer.throttle().value < scale);
    assert!(peer.throttle().value <= peer.throttle().limit);
    assert!(peer.packets_lost() > 0);
    assert!(delivered < queued);
}

#[test]
fn echo_with_checksums() {
    let mut client = Host::new(1, 2, 0, 0, 17).unwrap();
    let mut server = Host::new(4, 2, 0, 0, 99).unwrap();
    client.set_checksum(true);
    server.set_checksum(true);
    assert!(client.checksum());
    client.connect(SERVER, 1, 5).unwrap();
    let mut events = Vec::new();
    let mut own = Vec::new();
    for step in 0..10 {
        tick(&mut client, &mut server, 10 * step);
        own.extend(drain(&mut client));
        events.extend(drain(&mut server));
    }
    // both sides learn the value that the connecting side supplied
    assert_eq!(events, vec![Event::Connect { peer: PeerID(0), data: 5 }]);
    assert_eq!(own, vec![Event::Connect { peer: PeerID(0), data: 5 }]);
    let payload: Vec<u8> = (0..5000u32).map(|i| (i * 7) as u8).collect();
    client.send(PeerID(0), 0, &Packet::reliable(payload.clone())).unwrap();
    let mut events = Vec::new();
    for step in 10..20 {
        tick(&mut client, &mut server, 10 * step);
        events.extend(drain(&mut server));
    }
    assert_eq!(
        events,
        vec![Event::Receive { peer: PeerID(0), channel_id: 0, packet: Packet::reliable(payload) }]
    );
    assert_eq!(server.dropped(), 0);
    assert_eq!(client.dropped(), 0);
}

#[test]
fn hosts_that_disagree_on_checksums_do_not_connect() {
    let mut client = Host::new(1, 2, 0, 0, 17).unwrap();
    let mut server = Host::new(4, 2, 0, 0, 99).unwrap();
    server.set_checksum(true);
    client.connect(SERVER, 1, 0).unwrap();
    for step in 0..10 {
        tick(&mut client, &mut server, 10 * step);
    }
    assert_eq!(drain(&mut server), vec![]);
    assert_eq!(drain(&mut client), vec![]);
    assert!(server.dropped() > 0);
    assert_eq!(server.peer(PeerID(0)).unwrap().state(), PeerState::Disconnected);
    assert_eq!(client.peer(PeerID(0)).unwrap().state(), PeerState::Connecting);
}

#[test]
fn datagrams_never_exceed_the_mtu() {
    let (mut client, mut server, now) = connected(512);
    client.set_checksum(true);
    server.set_checksum(true);
    client.send(PeerID(0), 0, &Packet::reliable(vec![3; 10_000])).unwrap();
    for _ in 0..40 {
        client.send(PeerID(0), 1, &Packet::unsequenced(vec![4; 100])).unwrap();
    }
    let mut count = 0;
    while let Some(out) = client.next_datagram(now) {
        assert!(out.bytes.len() <= 512);
        assert!(server.receive(CLIENT, &out.bytes, now));
        count += 1;
    }
    assert!(count > 20);
    let events = drain(&mut server);
    assert_eq!(events.len(), 41);
}

#[test]
fn bandwidth_limiter_gives_each_peer_its_window() {
    let mut server = Host::new(4, 1, 0, 0, 1).unwrap();
    let addresses: Vec<Address> = (0..3).map(|i| Address { host: 100 + i, port: 9 }).collect();
    // the clients advertise 3 * 65536, 65536 and no limit
    let mut clients = vec![
        Host::new(1, 1, 3 * 65536, 0, 1).unwrap(),
        Host::new(1, 1, 65536, 0, 2).unwrap(),
        Host::new(1, 1, 0, 0, 3).unwrap(),
    ];
    for client in clients.iter_mut() {
        client.connect(SERVER, 1, 0).unwrap();
    }
    for step in 0..10 {
        let now = 10 * step;
        for (i, client) in clients.iter_mut().enumerate() {
            while let Some(out) = client.next_datagram(now) {
                server.receive(addresses[i], &out.bytes, now);
            }
        }
        while let Some(out) = server.next_datagram(now) {
            for (i, client) in clients.iter_mut().enumerate() {
                if out.address == addresses[i] {
                    client.receive(SERVER, &out.bytes, now);
                }
            }
        }
        drain(&mut server);
    }
    let advertised: Vec<u32> = (0..3).map(|i| server.peer(PeerID(i)).unwrap().incoming_bandwidth()).collect();
    assert_eq!(advertised, vec![3 * 65536, 65536, 0]);
    let received: u32 = (0..3).map(|i| server.peer(PeerID(i)).unwrap().incoming_data_total()).sum();
    let sent: u32 = (0..3).map(|i| server.peer(PeerID(i)).unwrap().outgoing_data_total()).sum();
    assert!(received > 0 && sent > 0);
    // before the epoch is over nothing happens
    assert!(!server.bandwidth_throttle(999));
    assert_eq!(server.incoming_data_total(), 0);
    // a host without a limit leaves the windows alone and totals the data
    assert!(server.bandwidth_throttle(1000));
    assert_eq!((server.incoming_data_total(), server.outgoing_data_total()), (received, sent));
    let windows: Vec<u32> = (0..3).map(|i| server.peer(PeerID(i)).unwrap().session().window_size).collect();
    assert_eq!(windows, vec![65536, 65536, 65536]);
    assert_eq!(server.peer(PeerID(0)).unwrap().incoming_data_total(), 0);
    assert_eq!(server.peer(PeerID(0)).unwrap().outgoing_data_total(), 0);
    assert!(!server.bandwidth_throttle(1999));
    // 40000 bytes per second for an epoch of 1000 ms: the peers with a limit
    // get 30000 and 10000 bytes, and nothing is left for the third
    server.bandwidth_limit(0, 40_000);
    assert!(server.bandwidth_throttle(2000));
    let windows: Vec<u32> = (0..3).map(|i| server.peer(PeerID(i)).unwrap().session().window_size).collect();
    assert_eq!(windows, vec![30_000, 10_000, 4096]);
    assert_eq!((server.incoming_data_total(), server.outgoing_data_total()), (0, 0));
    // 400000 bytes per second for an epoch of 500 ms more than the interval:
    // the budget is 600000 bytes; the peers with a limit can take no more
    // than 294912 and 98304 bytes, and what is left goes to the third
    server.bandwidth_limit(0, 400_000);
    assert!(server.bandwidth_throttle(3500));
    let windows: Vec<u32> = (0..3).map(|i| server.peer(PeerID(i)).unwrap().session().window_size).collect();
    assert_eq!(windows, vec![65536, 65536, 65536]);
    server.bandwidth_limit(0, 270_000);
    assert!(server.bandwidth_throttle(4500));
    // budget 270000: shares 202500 and 67500, capped at 196608 and 65536;
    // 270000 - 196608 - 65536 = 7856 are left
    let windows: Vec<u32> = (0..3).map(|i| server.peer(PeerID(i)).unwrap().session().window_size).collect();
    assert_eq!(windows, vec![65536, 65536, 7856]);
    // a peer that is not connected keeps its window
    assert_eq!(server.peer(PeerID(3)).unwrap().session().window_size, 65536);
}

#[test]
fn stale_connect_is_dropped() {
    let mut client = Host::new(1, 2, 0, 0, 17).unwrap();
    let mut server = Host::new(4, 2, 0, 0, 99).unwrap();
    client.connect(SERVER, 1, 0).unwrap();
    // the connect is recorded on its way
    let connect = client.next_datagram(0).unwrap();
    assert!(server.receive(CLIENT, &connect.bytes, 0));
    // a repetition is acknowledged again and starts no second session
    assert!(server.receive(CLIENT, &connect.bytes, 5));
    assert_eq!(server.peer(PeerID(1)).unwrap().state(), PeerState::Disconnected);
    for step in 1..10 {
        tick(&mut client, &mut server, 10 * step);
        drain(&mut client);
        drain(&mut server);
    }
    assert_eq!(server.peer(PeerID(0)).unwrap().state(), PeerState::Connected);
    client.disconnect(PeerID(0), 0).unwrap();
    for step in 10..20 {
        tick(&mut client, &mut server, 10 * step);
        drain(&mut client);
        drain(&mut server);
    }
    assert_eq!(server.peer(PeerID(0)).unwrap().state(), PeerState::Disconnected);
    // the old connect arrives once more, late: it starts no session
    let dropped = server.dropped();
    assert!(!server.receive(CLIENT, &connect.bytes, 300));
    assert_eq!(server.dropped(), dropped + 1);
    assert_eq!(server.peer(PeerID(0)).unwrap().state(), PeerState::Disconnected);
    assert_eq!(server.peer(PeerID(1)).unwrap().state(), PeerState::Disconnected);
}

/// A link that delivers each datagram after a delay and loses some.
struct Link {
    /// Datagrams on their way: when they arrive, whether at the server, and
    /// their bytes.
    flying: Vec<(u32, bool, Vec<u8>)>,
    sent: usize,
}

impl Link {
    fn new() -> Link {
        Link { flying: Vec::new(), sent: 0 }
    }

    /// One tick at `now`: both hosts look at their timeouts, what is due
    /// arrives, and both send. `delay` says how long a datagram with the
    /// given running number travels, `None` if it is lost.
    fn tick(
        &mut self,
        client: &mut Host,
        server: &mut Host,
        now: u32,
        delay: &dyn Fn(usize) -> Option<u32>,
    ) {
        client.service_timeouts(now);
        server.service_timeouts(now);
        let mut due: Vec<(u32, bool, Vec<u8>)> = Vec::new();
        let mut later = Vec::new();
        for datagram in self.flying.drain(..) {
            if datagram.0 <= now {
                due.push(datagram);
            } else {
                later.push(datagram);
            }
        }
        self.flying = later;
        due.sort_by_key(|datagram| datagram.0);
        for (_, to_server, bytes) in due {
            if to_server {
                server.receive(CLIENT, &bytes, now);
            } else {
                client.receive(SERVER, &bytes, now);
            }
        }
        for to_server in [true, false] {
            let from: &mut Host = if to_server { &mut *client } else { &mut *server };
            while let Some(out) = from.next_datagram(now) {
                let number = self.sent;
                self.sent += 1;
                if let Some(delay) = delay(number) {
                    self.flying.push((now + delay, to_server, out.bytes));
                }
            }
        }
    }
}

#[test]
fn reliable_packets_survive_loss_and_reordering() {
    let (mut client, mut server, start) = connected(512);
    let mut link = Link::new();
    let mut expected = Vec::new();
    for i in 0..40u32 {
        // every fifth message is too large for one datagram
        let length = if i % 5 == 0 { 1500 } else { 20 };
        let payload: Vec<u8> = (0..length).map(|k| (k as u32 * 3 + i) as u8).collect();
        client.send(PeerID(0), 0, &Packet::reliable(payload.clone())).unwrap();
        client.send(PeerID(0), 0, &Packet::unreliable(vec![i as u8])).unwrap();
        expected.push(payload);
    }
    let mut reliable = Vec::new();
    let mut unreliable = Vec::new();
    // three datagrams in ten are lost; the others take 10 to 70 ms, so that
    // later ones overtake earlier ones
    let delay = |n: usize| if n % 10 < 3 { None } else { Some(10 + 20 * (n as u32 % 4)) };
    let mut now = start;
    while now < start + 20_000 && reliable.len() < expected.len() {
        link.tick(&mut client, &mut server, now, &delay);
        for event in drain(&mut server) {
            match event {
                Event::Receive { packet, channel_id: 0, peer: PeerID(0) } => {
                    if packet.flags().reliable {
                        reliable.push(packet.data().to_vec());
                    } else {
                        unreliable.push(packet.data()[0]);
                    }
                },
                other => panic!("unexpected event {other:?}"),
            }
        }
        assert_eq!(drain(&mut client), vec![]);
        now += 10;
    }
    // every reliable message has arrived, once and in order
    assert_eq!(reliable, expected);
    // the unreliable ones that arrived were sent in that order, each once
    assert!(!unreliable.is_empty());
    assert!(unreliable.windows(2).all(|pair| pair[0] < pair[1]));
    assert_eq!(client.peer(PeerID(0)).unwrap().state(), PeerState::Connected);
    assert_eq!(server.peer(PeerID(0)).unwrap().state(), PeerState::Connected);
    assert!(client.peer(PeerID(0)).unwrap().packets_lost() > 0);
}

#[test]
fn round_trip_time_is_twice_the_latency() {
    for latency in [10u32, 40, 250] {
        let mut client = Host::new(1, 1, 0, 0, 3).unwrap();
        let mut server = Host::new(1, 1, 0, 0, 4).unwrap();
        let mut link = Link::new();
        client.connect(SERVER, 1, 0).unwrap();
        let delay = move |_: usize| Some(latency);
        let mut now = 0;
        let mut acknowledged = 0;
        let mut last = None;
        while acknowledged < 8 {
            link.tick(&mut client, &mut server, now, &delay);
            drain(&mut client);
            drain(&mut server);
            let peer = client.peer(PeerID(0)).unwrap();
            let stamp = peer.session().last_receive_time;
            if last != Some(stamp) && stamp != 0 {
                last = Some(stamp);
                acknowledged += 1;
                // from the first acknowledgement on the mean is the round trip
                assert_eq!(peer.round_trip_time(), std::time::Duration::from_millis(2 * latency as u64));
                assert_eq!(peer.round_trip().last, 2 * latency);
            }
            now += 10;
            assert!(now < 60_000);
        }
        assert_eq!(client.peer(PeerID(0)).unwrap().throttle().value, 32);
    }
}

/// Whether the state machine has an edge from `from` to `to`.
fn is_edge(from: PeerState, to: PeerState) -> bool {
    match (from, to) {
        (_, PeerState::Disconnected) => true,
        (PeerState::Disconnected, PeerState::Zombie) => false,
        (_, PeerState::Zombie) => true,
        (PeerState::Disconnected, PeerState::Connecting) | (PeerState::Disconnected, PeerState::AcknowledgingConnect) => true,
        (PeerState::AcknowledgingConnect, PeerState::Connected) => true,
        (PeerState::Connecting, PeerState::ConnectionPending) => true,
        (PeerState::ConnectionPending, PeerState::ConnectionSucceeded) => true,
        (PeerState::ConnectionSucceeded, PeerState::Connected) => true,
        (PeerState::Connected, PeerState::Disconnecting) | (PeerState::Connected, PeerState::DisconnectLater) => true,
        (PeerState::DisconnectLater, PeerState::Disconnecting) => true,
        _ => false,
    }
}

#[test]
fn peers_move_along_the_edges_of_the_state_machine() {
    let mut client = Host::new(1, 1, 0, 0, 3).unwrap();
    let mut server = Host::new(1, 1, 0, 0, 4).unwrap();
    let mut seen: Vec<Vec<PeerState>> = vec![vec![PeerState::Disconnected], vec![PeerState::Disconnected]];
    let mut note = |client: &Host, server: &Host| {
        for (i, host) in [client, server].into_iter().enumerate() {
            let state = host.peer(PeerID(0)).unwrap().state();
            if *seen[i].last().unwrap() != state {
                assert!(is_edge(*seen[i].last().unwrap(), state), "{:?} -> {:?}", seen[i].last(), state);
                seen[i].push(state);
            }
        }
    };
    client.connect(SERVER, 1, 0).unwrap();
    note(&client, &server);
    let mut now = 0;
    for round in 0..3 {
        for _ in 0..20 {
            // one phase at a time, so that no state goes unseen
            while let Some(out) = client.next_datagram(now) {
                note(&client, &server);
                server.receive(CLIENT, &out.bytes, now);
                note(&client, &server);
            }
            while let Some(out) = server.next_datagram(now) {
                note(&client, &server);
                client.receive(SERVER, &out.bytes, now);
                note(&client, &server);
            }
            client.poll_event();
            note(&client, &server);
            server.poll_event();
            note(&client, &server);
            now += 10;
        }
        match round {
            0 => {
                client.send(PeerID(0), 0, &Packet::reliable(vec![1])).unwrap();
                client.disconnect_later(PeerID(0), 0).unwrap();
            },
            1 => {
                client.connect(SERVER, 1, 0).unwrap();
            },
            _ => {},
        }
        note(&client, &server);
    }
    server.disconnect_now(PeerID(0), 0);
    let mut note_last = |client: &Host, server: &Host| note(client, server);
    note_last(&client, &server);
    assert_eq!(
        seen[0],
        vec![
            PeerState::Disconnected,
            PeerState::Connecting,
            PeerState::ConnectionPending,
            PeerState::ConnectionSucceeded,
            PeerState::Connected,
            PeerState::DisconnectLater,
            PeerState::Disconnecting,
            PeerState::Zombie,
            PeerState::Disconnected,
            PeerState::Connecting,
            PeerState::ConnectionPending,
            PeerState::ConnectionSucceeded,
            PeerState::Connected
        ]
    );
    assert_eq!(
        seen[1],
        vec![
            PeerState::Disconnected,
            PeerState::AcknowledgingConnect,
            PeerState::Connected,
            PeerState::Zombie,
            PeerState::Disconnected,
            PeerState::AcknowledgingConnect,
            PeerState::Connected,
            PeerState::Disconnected
        ]
    );
}

#[test]
fn session_survives_the_wrap_of_the_clock() {
    let mut client = Host::new(1, 1, 0, 0, 3).unwrap();
    let mut server = Host::new(1, 1, 0, 0, 4).unwrap();
    client.connect(SERVER, 1, 0).unwrap();
    let mut now: u32 = 0xFFFF_F000;
    let mut received = 0;
    for step in 0..1000u32 {
        if step % 10 == 5 {
            client.send(PeerID(0), 0, &Packet::reliable(vec![step as u8])).unwrap();
        }
        tick(&mut client, &mut server, now);
        for event in drain(&mut server) {
            if let Event::Receive { .. } = event {
                received += 1;
            }
        }
        for event in drain(&mut client) {
            assert!(matches!(event, Event::Connect { .. }));
        }
        now = now.wrapping_add(10);
    }
    assert_eq!(now, 0x1710);
    assert_eq!(received, 100);
    assert_eq!(client.peer(PeerID(0)).unwrap().state(), PeerState::Connected);
    assert_eq!(server.peer(PeerID(0)).unwrap().state(), PeerState::Connected);
    assert_eq!(client.peer(PeerID(0)).unwrap().reliable_data_in_transit(), 0);
}

#[test]
fn sequence_numbers_wrap_around_in_a_session() {
    let (mut client, mut server, start) = connected(1392);
    let mut next: u32 = 0;
    let mut expected: u32 = 0;
    let mut now = start;
    while expected < 70_000 {
        for _ in 0..500 {
            if next < 70_000 {
                client.send(PeerID(0), 0, &Packet::reliable(next.to_be_bytes().to_vec())).unwrap();
                next += 1;
            }
        }
        tick(&mut client, &mut server, now);
        tick(&mut client, &mut server, now);
        for event in drain(&mut server) {
            match event {
                Event::Receive { packet, .. } => {
                    assert_eq!(packet.data(), &expected.to_be_bytes()[..]);
                    expected += 1;
                },
                other => panic!("unexpected event {other:?}"),
            }
        }
        now += 10;
        assert!(now < start + 100_000);
    }
    assert_eq!(expected, 70_000);
}

#[test]
fn a_megabyte_arrives_whole() {
    let (mut client, mut server, start) = connected(1392);
    let payload: Vec<u8> = (0..1_048_576u32).map(|i| (i ^ (i >> 8)) as u8).collect();
    client.send(PeerID(0), 1, &Packet::reliable(payload.clone())).unwrap();
    let mut now = start;
    let mut events = Vec::new();
    while events.is_empty() {
        tick(&mut client, &mut server, now);
        events.extend(drain(&mut server));
        now += 1;
        assert!(now < start + 10_000);
    }
    assert_eq!(
        events,
        vec![Event::Receive { peer: PeerID(0), channel_id: 1, packet: Packet::reliable(payload) }]
    );
}

#[test]
fn bandwidth_change_is_told_to_connected_peers() {
    let (mut client, mut server, now) = connected(1392);
    client.bandwidth_limit(70_000, 140_000);
    tick(&mut client, &mut server, now);
    let peer = server.peer(PeerID(0)).unwrap();
    assert_eq!((peer.incoming_bandwidth(), peer.outgoing_bandwidth()), (70_000, 140_000));
    // the window follows the bandwidth that the remote host can take
    assert_eq!(peer.session().window_size, 4096);
    let mut idle = Host::new(1, 1, 0, 0, 0).unwrap();
    idle.bandwidth_limit(1, 2);
    assert!(idle.next_datagram(0).is_none());
}

#[test]
fn reset_tells_the_remote_host() {
    let (mut client, mut server, now) = connected(1392);
    client.reset(PeerID(0));
    assert_eq!(client.peer(PeerID(0)).unwrap().state(), PeerState::Disconnected);
    assert_eq!(drain(&mut client), vec![]);
    tick(&mut client, &mut server, now);
    // the remote host hears of the end of the session at once
    assert_eq!(drain(&mut server), vec![Event::Disconnect { peer: PeerID(0), data: 0 }]);
    assert_eq!(server.peer(PeerID(0)).unwrap().state(), PeerState::Disconnected);
    assert_eq!(drain(&mut client), vec![]);
    // a slot that the host does not have is left alone
    client.reset(PeerID(7));
    assert!(client.next_datagram(now).is_none());
}

#[test]
fn receive_says_whether_the_bytes_were_taken() {
    let mut client = Host::new(1, 2, 0, 0, 17).unwrap();
    let mut server = Host::new(1, 2, 0, 0, 99).unwrap();
    server.set_checksum(true);
    client.set_checksum(true);
    client.connect(SERVER, 1, 0).unwrap();
    let connect = client.next_datagram(0).unwrap();
    // a wrong checksum: not taken, counted, nothing else changed
    let mut spoiled = connect.bytes.clone();
    let last = spoiled.len() - 1;
    spoiled[last] ^= 1;
    assert!(!server.receive(CLIENT, &spoiled, 0));
    assert_eq!(server.dropped(), 1);
    assert_eq!(server.peer(PeerID(0)).unwrap().state(), PeerState::Disconnected);
    assert!(server.receive(CLIENT, &connect.bytes, 0));
    assert_eq!(server.dropped(), 1);
    // a second host finds no free slot
    assert!(!server.receive(Address { host: 9, port: 9 }, &connect.bytes, 0));
    assert_eq!(server.dropped(), 2);
}
