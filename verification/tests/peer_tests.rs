use std::time::Duration;

use rusty_enet::datagram::{Datagram, ProtocolHeader};
use rusty_enet::host::{Host, HostError, InvalidParameters, NoPeerAvailable};
use rusty_enet::packet::{Address, Packet, PacketFlags};
use rusty_enet::peer::control::{initial_window, next_session, HostSettings, NotConnected};
use rusty_enet::peer::send::PeerSendError;
use rusty_enet::peer::{Counters, Event, Peer, PeerID, PeerState, Session};
use rusty_enet::rtt::RoundTripTime;
use rusty_enet::throttle::Throttle;
use rusty_enet::timeout::TimeoutPolicy;
use rusty_enet::wire::{Command, CommandBody, CommandHeader, Handshake};

const REMOTE: Address = Address { host: 0x7F00_0001, port: 6060 };

fn settings() -> HostSettings {
    HostSettings { mtu: 1392, incoming_bandwidth: 0, outgoing_bandwidth: 0, channel_limit: 4 }
}

fn control(sequence: u16, body: CommandBody) -> Command {
    Command {
        header: CommandHeader {
            acknowledge: true,
            unsequenced: false,
            channel_id: 0xFF,
            reliable_sequence_number: sequence,
        },
        body,
        data: vec![],
    }
}

fn acknowledgement(channel_id: u8, sequence: u16) -> Command {
    Command {
        header: CommandHeader {
            acknowledge: false,
            unsequenced: false,
            channel_id,
            reliable_sequence_number: sequence,
        },
        body: CommandBody::Acknowledge {
            received_reliable_sequence_number: sequence,
            received_sent_time: 0,
        },
        data: vec![],
    }
}

/// The commands of the next datagram of the peer at `now`.
fn flush(peer: &mut Peer, now: u32) -> Vec<Command> {
    match peer.next_datagram(now) {
        Some(out) => Datagram::decode(&out.bytes, false).unwrap().commands,
        None => vec![],
    }
}

/// A peer that has connected as a client, by hand: its connect has been
/// sent, acknowledged and answered, and the connect event handed out.
fn client() -> Peer {
    client_of(&settings())
}

/// A peer that has connected as a client of a host with the given settings.
fn client_of(settings: &HostSettings) -> Peer {
    let mut peer = Peer::new(PeerID(3));
    assert!(peer.connect(REMOTE, 2, 7, 0xABCD, settings));
    assert_eq!(peer.state(), PeerState::Connecting);
    let sent = flush(&mut peer, 10);
    assert_eq!(sent.len(), 1);
    let handshake = match sent[0].body {
        CommandBody::Connect { handshake, data } => {
            assert_eq!(data, 7);
            handshake
        },
        _ => panic!("a connect was expected"),
    };
    assert_eq!(
        handshake,
        Handshake {
            outgoing_peer_id: 3,
            incoming_session_id: 0xFF,
            outgoing_session_id: 0xFF,
            mtu: settings.mtu,
            window_size: 65536,
            channel_count: 2,
            incoming_bandwidth: 0,
            outgoing_bandwidth: 0,
            packet_throttle_interval: 5000,
            packet_throttle_acceleration: 2,
            packet_throttle_deceleration: 2,
            connect_id: 0xABCD,
        }
    );
    peer.handle(acknowledgement(0xFF, 1), Some(0), 20);
    let answer = Handshake {
        outgoing_peer_id: 9,
        incoming_session_id: 1,
        outgoing_session_id: 2,
        ..handshake
    };
    peer.handle(control(1, CommandBody::VerifyConnect { handshake: answer }), Some(0), 20);
    assert_eq!(peer.state(), PeerState::ConnectionPending);
    assert_eq!(peer.poll_event(), None);
    let sent = flush(&mut peer, 30);
    assert_eq!(sent, vec![acknowledgement(0xFF, 1)]);
    assert_eq!(peer.state(), PeerState::ConnectionSucceeded);
    assert_eq!(peer.poll_event(), Some(Event::Connect { peer: PeerID(3), data: 7 }));
    assert_eq!(peer.state(), PeerState::Connected);
    assert!(peer.connected());
    peer
}

#[test]
fn peer_ids_span_the_twelve_bits_of_the_header() {
    assert_eq!(PeerID::MIN, 0);
    assert_eq!(PeerID::MAX, 0xFFF);
    assert_eq!(PeerID(5), PeerID(5));
    assert!(PeerID(4) < PeerID(5));
}

#[test]
fn new_peer_is_disconnected_and_has_the_defaults() {
    let peer = Peer::new(PeerID(4));
    assert_eq!(peer.id(), PeerID(4));
    assert_eq!(peer.state(), PeerState::Disconnected);
    assert!(!peer.connected());
    assert_eq!(peer.address(), None);
    assert_eq!(peer.channel_count(), 0);
    assert_eq!(peer.incoming_bandwidth(), 0);
    assert_eq!(peer.outgoing_bandwidth(), 0);
    assert_eq!(peer.incoming_data_total(), 0);
    assert_eq!(peer.outgoing_data_total(), 0);
    assert_eq!(peer.packets_sent(), 0);
    assert_eq!(peer.packets_lost(), 0);
    assert_eq!(peer.packet_loss(), 0);
    assert_eq!(peer.packet_loss_variance(), 0);
    assert_eq!(peer.reliable_data_in_transit(), 0);
    assert_eq!(peer.ping_interval(), Duration::from_millis(500));
    assert_eq!(peer.round_trip_time(), Duration::from_millis(500));
    assert_eq!(peer.round_trip_time_variance(), Duration::from_millis(0));
    assert_eq!(peer.throttle(), Throttle::new());
    assert_eq!(peer.round_trip(), RoundTripTime::new());
    assert_eq!(peer.timeout(), TimeoutPolicy::new());
    assert_eq!(peer.session(), Session::new());
    assert_eq!(
        Session::new(),
        Session {
            outgoing_peer_id: 0xFFF,
            incoming_session_id: 0xFF,
            outgoing_session_id: 0xFF,
            connect_id: 0,
            mtu: 1392,
            window_size: 65536,
            incoming_bandwidth: 0,
            outgoing_bandwidth: 0,
            event_data: 0,
            ping_interval: 500,
            last_send_time: 0,
            last_receive_time: 0,
        }
    );
    assert_eq!(Counters::new().packets_sent, 0);
}

#[test]
fn durations_are_given_in_milliseconds() {
    let mut peer = client();
    peer.set_ping_interval(1234);
    assert_eq!(peer.ping_interval(), Duration::from_millis(1234));
    assert_ne!(peer.ping_interval(), Duration::from_secs(1234));
    peer.set_ping_interval(0);
    assert_eq!(peer.ping_interval(), Duration::from_millis(500));
    // the connect was acknowledged ten milliseconds after it was sent
    assert_eq!(peer.round_trip_time(), Duration::from_millis(10));
    assert_eq!(peer.round_trip_time_variance(), Duration::from_millis(5));
}

#[test]
fn handshake_takes_over_what_the_remote_host_says() {
    let peer = client();
    let session = peer.session();
    assert_eq!(session.outgoing_peer_id, 9);
    assert_eq!(session.incoming_session_id, 1);
    assert_eq!(session.outgoing_session_id, 2);
    assert_eq!(session.connect_id, 0xABCD);
    assert_eq!(peer.address(), Some(REMOTE));
    assert_eq!(peer.channel_count(), 2);
}

#[test]
fn answer_that_does_not_fit_makes_a_zombie() {
    for spoil in 0..5 {
        let mut peer = Peer::new(PeerID(0));
        assert!(peer.connect(REMOTE, 2, 0, 55, &settings()));
        let sent = flush(&mut peer, 10);
        let mut answer = match sent[0].body {
            CommandBody::Connect { handshake, .. } => handshake,
            _ => panic!("a connect was expected"),
        };
        match spoil {
            0 => answer.channel_count = 0,
            1 => answer.channel_count = 256,
            2 => answer.packet_throttle_interval += 1,
            3 => answer.connect_id = 56,
            _ => answer.packet_throttle_deceleration = 9,
        }
        peer.handle(control(1, CommandBody::VerifyConnect { handshake: answer }), Some(0), 20);
        assert_eq!(peer.state(), PeerState::Zombie);
        assert_eq!(peer.poll_event(), Some(Event::Disconnect { peer: PeerID(0), data: 0 }));
        assert_eq!(peer.state(), PeerState::Disconnected);
        assert_eq!(peer.poll_event(), None);
    }
}

#[test]
fn connect_is_for_disconnected_peers_only() {
    let mut peer = client();
    assert!(!peer.connect(REMOTE, 2, 0, 1, &settings()));
    assert_eq!(peer.state(), PeerState::Connected);
    let handshake = Handshake {
        outgoing_peer_id: 0,
        incoming_session_id: 0xFF,
        outgoing_session_id: 0xFF,
        mtu: 1392,
        window_size: 65536,
        channel_count: 1,
        incoming_bandwidth: 0,
        outgoing_bandwidth: 0,
        packet_throttle_interval: 5000,
        packet_throttle_acceleration: 2,
        packet_throttle_deceleration: 2,
        connect_id: 1,
    };
    let header = control(1, CommandBody::Ping).header;
    assert!(!peer.accept(REMOTE, &header, &handshake, 0, Some(0), &settings()));
    assert_eq!(peer.state(), PeerState::Connected);
}

#[test]
fn accepted_connect_is_acknowledged_and_answered() {
    let mut peer = Peer::new(PeerID(6));
    let handshake = Handshake {
        outgoing_peer_id: 2,
        incoming_session_id: 0xFF,
        outgoing_session_id: 0xFF,
        mtu: 600,
        window_size: 8192,
        channel_count: 9,
        incoming_bandwidth: 111,
        outgoing_bandwidth: 222,
        packet_throttle_interval: 4000,
        packet_throttle_acceleration: 3,
        packet_throttle_deceleration: 4,
        connect_id: 0x1234,
    };
    let header = control(1, CommandBody::Ping).header;
    assert!(peer.accept(REMOTE, &header, &handshake, 42, Some(77), &settings()));
    assert_eq!(peer.state(), PeerState::AcknowledgingConnect);
    assert_eq!(peer.channel_count(), 4);
    assert_eq!(peer.incoming_bandwidth(), 111);
    assert_eq!(peer.outgoing_bandwidth(), 222);
    let session = peer.session();
    assert_eq!((session.mtu, session.window_size), (600, 8192));
    assert_eq!((session.outgoing_peer_id, session.connect_id), (2, 0x1234));
    assert_eq!((session.incoming_session_id, session.outgoing_session_id), (0, 0));
    let throttle = peer.throttle();
    assert_eq!((throttle.interval, throttle.acceleration, throttle.deceleration), (4000, 3, 4));
    let sent = flush(&mut peer, 5);
    assert_eq!(sent.len(), 2);
    assert_eq!(
        sent[0].body,
        CommandBody::Acknowledge { received_reliable_sequence_number: 1, received_sent_time: 77 }
    );
    assert_eq!(
        sent[1].body,
        CommandBody::VerifyConnect {
            handshake: Handshake {
                outgoing_peer_id: 6,
                incoming_session_id: 0,
                outgoing_session_id: 0,
                mtu: 600,
                window_size: 8192,
                channel_count: 4,
                incoming_bandwidth: 0,
                outgoing_bandwidth: 0,
                packet_throttle_interval: 4000,
                packet_throttle_acceleration: 3,
                packet_throttle_deceleration: 4,
                connect_id: 0x1234,
            }
        }
    );
    // the answer is acknowledged: the peer is connected and says so
    peer.handle(acknowledgement(0xFF, 1), Some(0), 9);
    assert_eq!(peer.state(), PeerState::Connected);
    assert_eq!(peer.poll_event(), Some(Event::Connect { peer: PeerID(6), data: 42 }));
}

#[test]
fn session_numbers_follow_each_other() {
    assert_eq!(next_session(0xFF, 0xFF), 0);
    assert_eq!(next_session(0, 0), 1);
    assert_eq!(next_session(3, 3), 0);
    assert_eq!(next_session(3, 0), 1);
    assert_eq!(next_session(1, 0), 2);
}

#[test]
fn window_follows_the_bandwidth() {
    assert_eq!(initial_window(0), 65536);
    assert_eq!(initial_window(1), 4096);
    assert_eq!(initial_window(65536), 4096);
    assert_eq!(initial_window(3 * 65536), 3 * 4096);
    assert_eq!(initial_window(16 * 65536), 65536);
    assert_eq!(initial_window(u32::MAX), 65536);
    let host = HostSettings { mtu: 100, incoming_bandwidth: 0, outgoing_bandwidth: 0, channel_limit: 300 };
    assert_eq!(host.mtu(), 512);
    assert_eq!(HostSettings { mtu: 5000, ..host }.mtu(), 4096);
    assert_eq!(host.channels(0), 1);
    assert_eq!(host.channels(7), 7);
    assert_eq!(host.channels(1000), 255);
}

#[test]
fn send_refuses_in_the_order_of_its_errors() {
    let mut fresh = Peer::new(PeerID(0));
    let reliable = Packet::reliable(vec![1, 2, 3]);
    assert_eq!(fresh.send(0, &reliable), Err(PeerSendError::PeerNotConnected));
    assert_eq!(fresh.send(200, &reliable), Err(PeerSendError::PeerNotConnected));
    let mut peer = client();
    assert_eq!(peer.send(2, &reliable), Err(PeerSendError::InvalidChannel));
    assert_eq!(peer.send(255, &reliable), Err(PeerSendError::InvalidChannel));
    let huge = Packet::reliable(vec![0; 16_777_216]);
    assert_eq!(peer.send(2, &huge), Err(PeerSendError::InvalidChannel));
    assert_eq!(peer.send(1, &huge), Err(PeerSendError::PacketTooLarge));
    let illegal = PacketFlags {
        reliable: true,
        unsequenced: true,
        unreliable_fragment: false,
        no_allocate: false,
    };
    assert!(!illegal.is_legal());
    assert_eq!(peer.send(1, &Packet::new(vec![1], illegal)), Err(PeerSendError::InvalidPacketFlags));
    assert_eq!(
        peer.send(1, &Packet::new(vec![0; 16_777_216], illegal)),
        Err(PeerSendError::PacketTooLarge)
    );
    assert_eq!(flush(&mut peer, 40), vec![]);
    assert_eq!(peer.send(1, &reliable), Ok(()));
}

#[test]
fn send_fails_to_queue_what_the_window_cannot_hold() {
    let mut peer = client_of(&HostSettings { mtu: 512, ..settings() });
    // 480 bytes fit one command at this MTU; the window holds 32767 of them
    let fits = Packet::reliable(vec![0; 480 * 0x7FFF]);
    let too_many = Packet::reliable(vec![0; 480 * 0x7FFF + 1]);
    assert_eq!(peer.send(0, &too_many), Err(PeerSendError::FailedToQueue));
    assert_eq!(peer.send(0, &fits), Ok(()));
    // the queues are full now but for 32768 commands
    assert_eq!(peer.send(1, &fits), Ok(()));
    assert_eq!(peer.send(1, &Packet::unreliable(vec![1])), Ok(()));
    assert_eq!(peer.send(1, &Packet::unreliable(vec![1])), Err(PeerSendError::FailedToQueue));
    assert_eq!(peer.send(1, &Packet::unsequenced(vec![1])), Err(PeerSendError::FailedToQueue));
}

#[test]
fn largest_packet_is_accepted() {
    let mut peer = client();
    let flags = PacketFlags {
        reliable: false,
        unsequenced: false,
        unreliable_fragment: true,
        no_allocate: false,
    };
    // 12337 unreliable fragments of 1360 bytes
    assert_eq!(peer.send(0, &Packet::new(vec![0; 16_777_215], flags)), Ok(()));
    // as many reliable ones fit the window of 32767 sequence numbers
    assert_eq!(peer.send(0, &Packet::reliable(vec![0; 16_777_215])), Ok(()));
}

#[test]
fn reliable_packet_becomes_a_numbered_command() {
    let mut peer = client();
    peer.send(1, &Packet::reliable(b"one".to_vec())).unwrap();
    peer.send(1, &Packet::reliable(b"two".to_vec())).unwrap();
    peer.send(0, &Packet::reliable(b"other".to_vec())).unwrap();
    let sent = flush(&mut peer, 50);
    let seen: Vec<(u8, u16, bool, Vec<u8>)> = sent
        .iter()
        .map(|c| (c.header.channel_id, c.header.reliable_sequence_number, c.header.acknowledge, c.data.clone()))
        .collect();
    assert_eq!(
        seen,
        vec![
            (1, 1, true, b"one".to_vec()),
            (1, 2, true, b"two".to_vec()),
            (0, 1, true, b"other".to_vec())
        ]
    );
    assert!(sent.iter().all(|c| c.body == CommandBody::SendReliable));
    assert_eq!(peer.reliable_data_in_transit(), 11);
    assert_eq!(peer.packets_sent(), 4);
    peer.handle(acknowledgement(1, 2), Some(0), 60);
    assert_eq!(peer.reliable_data_in_transit(), 8);
    peer.handle(acknowledgement(1, 2), Some(0), 60);
    assert_eq!(peer.reliable_data_in_transit(), 8);
    peer.handle(acknowledgement(0, 1), Some(0), 60);
    peer.handle(acknowledgement(1, 1), Some(0), 60);
    assert_eq!(peer.reliable_data_in_transit(), 0);
}

#[test]
fn unreliable_and_unsequenced_packets_carry_their_own_numbers() {
    let mut peer = client();
    peer.send(0, &Packet::reliable(b"r".to_vec())).unwrap();
    peer.send(0, &Packet::unreliable(b"a".to_vec())).unwrap();
    peer.send(0, &Packet::unreliable(b"b".to_vec())).unwrap();
    peer.send(1, &Packet::unsequenced(b"c".to_vec())).unwrap();
    peer.send(0, &Packet::unsequenced(b"d".to_vec())).unwrap();
    let sent = flush(&mut peer, 50);
    assert_eq!(
        sent.iter().map(|c| c.body).collect::<Vec<_>>(),
        vec![
            CommandBody::SendReliable,
            CommandBody::SendUnreliable { unreliable_sequence_number: 1 },
            CommandBody::SendUnreliable { unreliable_sequence_number: 2 },
            CommandBody::SendUnsequenced { unsequenced_group: 1 },
            CommandBody::SendUnsequenced { unsequenced_group: 2 },
        ]
    );
    assert_eq!(
        sent.iter().map(|c| (c.header.reliable_sequence_number, c.header.unsequenced)).collect::<Vec<_>>(),
        vec![(1, false), (1, false), (1, false), (0, true), (0, true)]
    );
    assert!(sent[1..].iter().all(|c| !c.header.acknowledge));
}

#[test]
fn large_packet_is_cut_into_fragments() {
    let mut peer = client();
    let payload: Vec<u8> = (0..3000u32).map(|i| i as u8).collect();
    peer.send(0, &Packet::reliable(payload.clone())).unwrap();
    let mut fragments = Vec::new();
    for _ in 0..5 {
        fragments.extend(flush(&mut peer, 50));
    }
    assert_eq!(fragments.len(), 3);
    let mut restored: Vec<u8> = Vec::new();
    for (i, command) in fragments.iter().enumerate() {
        assert_eq!(command.header.reliable_sequence_number, 1 + i as u16);
        match command.body {
            CommandBody::SendFragment { fragment } => {
                assert_eq!(fragment.start_sequence_number, 1);
                assert_eq!(fragment.fragment_count, 3);
                assert_eq!(fragment.fragment_number, i as u32);
                assert_eq!(fragment.total_length, 3000);
                assert_eq!(fragment.fragment_offset, 1360 * i as u32);
            },
            _ => panic!("a fragment was expected"),
        }
        restored.extend(&command.data);
    }
    assert_eq!(fragments[0].data.len(), 1360);
    assert_eq!(fragments[2].data.len(), 3000 - 2 * 1360);
    assert_eq!(restored, payload);
}

#[test]
fn unreliable_fragments_share_one_number() {
    let mut peer = client();
    let flags = PacketFlags {
        reliable: false,
        unsequenced: false,
        unreliable_fragment: true,
        no_allocate: false,
    };
    peer.send(0, &Packet::new(vec![7; 2000], flags)).unwrap();
    // without the flag a large unreliable packet travels reliably
    peer.send(0, &Packet::unreliable(vec![8; 2000])).unwrap();
    let mut sent = Vec::new();
    for _ in 0..5 {
        sent.extend(flush(&mut peer, 50));
    }
    let kinds: Vec<(u8, u16, bool)> = sent
        .iter()
        .map(|c| (c.body.number(), c.header.reliable_sequence_number, c.header.acknowledge))
        .collect();
    assert_eq!(kinds, vec![(12, 0, false), (12, 0, false), (8, 1, true), (8, 2, true)]);
    match sent[1].body {
        CommandBody::SendUnreliableFragment { fragment } => {
            assert_eq!(fragment.start_sequence_number, 1);
            assert_eq!(fragment.fragment_number, 1);
            assert_eq!(fragment.fragment_offset, 1360);
        },
        _ => panic!("an unreliable fragment was expected"),
    }
}

#[test]
fn closed_throttle_drops_unreliable_packets_before_they_leave() {
    let mut peer = client();
    // the remote host makes the throttle fall by its full scale
    peer.handle(
        control(2, CommandBody::ThrottleConfigure { interval: 1, acceleration: 0, deceleration: 32 }),
        Some(0),
        40,
    );
    flush(&mut peer, 40);
    peer.ping().unwrap();
    flush(&mut peer, 50);
    // the ping is acknowledged late: the one sample of its interval lies far
    // above the mean
    peer.handle(acknowledgement(0xFF, 2), Some(0), 5000);
    assert_eq!(peer.throttle().value, 0);
    assert_eq!(peer.packets_lost(), 0);
    for _ in 0..10 {
        assert_eq!(peer.send(0, &Packet::unreliable(vec![1])), Ok(()));
        assert_eq!(peer.send(0, &Packet::unsequenced(vec![1])), Ok(()));
    }
    assert_eq!(peer.packets_lost(), 20);
    assert_eq!(peer.send(0, &Packet::reliable(vec![1])), Ok(()));
    let sent = flush(&mut peer, 5000);
    assert_eq!(sent.iter().filter(|c| c.body.carries_data()).count(), 1);
    assert_eq!(peer.packets_lost(), 20);
}

#[test]
fn ping_and_disconnect_need_a_connected_peer() {
    let mut fresh = Peer::new(PeerID(0));
    assert_eq!(fresh.ping(), Err(NotConnected));
    assert_eq!(fresh.disconnect(1), Err(NotConnected));
    assert_eq!(fresh.disconnect_later(1), Err(NotConnected));
    assert_eq!(fresh.state(), PeerState::Disconnected);
    let mut connecting = Peer::new(PeerID(0));
    connecting.connect(REMOTE, 1, 0, 1, &settings());
    assert_eq!(connecting.ping(), Err(NotConnected));
    assert_eq!(connecting.disconnect(1), Err(NotConnected));
    assert_eq!(connecting.state(), PeerState::Connecting);
    let mut peer = client();
    assert_eq!(peer.ping(), Ok(()));
    assert_eq!(flush(&mut peer, 40), vec![control(2, CommandBody::Ping)]);
}

#[test]
fn disconnect_waits_for_its_acknowledgement() {
    let mut peer = client();
    peer.send(0, &Packet::reliable(b"lost".to_vec())).unwrap();
    assert_eq!(peer.disconnect(5), Ok(()));
    assert_eq!(peer.state(), PeerState::Disconnecting);
    assert_eq!(peer.channel_count(), 0);
    assert_eq!(peer.disconnect(5), Err(NotConnected));
    // what was queued is gone; the disconnect is all that leaves
    assert_eq!(flush(&mut peer, 40), vec![control(2, CommandBody::Disconnect { data: 5 })]);
    assert_eq!(peer.poll_event(), None);
    peer.handle(acknowledgement(0xFF, 2), Some(0), 50);
    assert_eq!(peer.state(), PeerState::Zombie);
    assert_eq!(peer.poll_event(), Some(Event::Disconnect { peer: PeerID(3), data: 5 }));
    assert_eq!(peer.state(), PeerState::Disconnected);
    assert_eq!(peer.address(), Some(REMOTE));
}

#[test]
fn disconnect_later_sends_what_is_queued_first() {
    let mut peer = client();
    peer.send(0, &Packet::reliable(b"kept".to_vec())).unwrap();
    assert_eq!(peer.disconnect_later(6), Ok(()));
    assert_eq!(peer.state(), PeerState::DisconnectLater);
    let sent = flush(&mut peer, 40);
    assert_eq!(sent.len(), 1);
    assert_eq!(sent[0].data, b"kept".to_vec());
    assert_eq!(peer.state(), PeerState::DisconnectLater);
    peer.handle(acknowledgement(0, 1), Some(0), 50);
    assert_eq!(peer.state(), PeerState::Disconnecting);
    assert_eq!(flush(&mut peer, 60), vec![control(2, CommandBody::Disconnect { data: 6 })]);
    // with nothing queued the peer disconnects at once
    let mut idle = client();
    assert_eq!(idle.disconnect_later(1), Ok(()));
    assert_eq!(idle.state(), PeerState::Disconnecting);
}

#[test]
fn disconnect_later_goes_on_once_unreliable_packets_have_left() {
    let mut peer = client();
    peer.send(0, &Packet::unreliable(b"u".to_vec())).unwrap();
    assert_eq!(peer.disconnect_later(0), Ok(()));
    assert_eq!(peer.state(), PeerState::DisconnectLater);
    assert_eq!(flush(&mut peer, 40).len(), 1);
    assert_eq!(peer.state(), PeerState::Disconnecting);
}

#[test]
fn disconnect_now_leaves_a_notice_and_no_event() {
    let mut peer = client();
    peer.send(0, &Packet::reliable(b"lost".to_vec())).unwrap();
    peer.disconnect_now(9);
    assert_eq!(peer.state(), PeerState::Disconnected);
    assert_eq!(peer.poll_event(), None);
    let out = peer.next_datagram(40).unwrap();
    assert_eq!(out.address, REMOTE);
    let datagram = Datagram::decode(&out.bytes, false).unwrap();
    assert_eq!(datagram.header, ProtocolHeader { peer_id: 9, session_id: 2, sent_time: None });
    assert_eq!(
        datagram.commands,
        vec![Command {
            header: CommandHeader {
                acknowledge: false,
                unsequenced: true,
                channel_id: 0xFF,
                reliable_sequence_number: 0
            },
            body: CommandBody::Disconnect { data: 9 },
            data: vec![],
        }]
    );
    assert_eq!(peer.next_datagram(50), None);
    // a peer without a session leaves no notice
    let mut fresh = Peer::new(PeerID(0));
    fresh.disconnect_now(1);
    assert_eq!(fresh.next_datagram(0), None);
}

#[test]
fn reset_forgets_the_session_but_not_the_address() {
    let mut peer = client();
    peer.send(0, &Packet::reliable(b"x".to_vec())).unwrap();
    peer.set_timeout(1, 2, 3);
    peer.reset();
    assert_eq!(peer.state(), PeerState::Disconnected);
    assert_eq!(peer.address(), Some(REMOTE));
    assert_eq!(peer.id(), PeerID(3));
    assert_eq!(peer.channel_count(), 0);
    assert_eq!(peer.timeout(), TimeoutPolicy::new());
    assert_eq!(peer.poll_event(), None);
    // one disconnect leaves for the remote host: unsequenced, without data,
    // not to be acknowledged and not sent again
    let out = peer.next_datagram(40).unwrap();
    assert_eq!(out.address, REMOTE);
    let datagram = Datagram::decode(&out.bytes, false).unwrap();
    assert_eq!(datagram.header, ProtocolHeader { peer_id: 9, session_id: 2, sent_time: None });
    assert_eq!(
        datagram.commands,
        vec![Command {
            header: CommandHeader {
                acknowledge: false,
                unsequenced: true,
                channel_id: 0xFF,
                reliable_sequence_number: 0
            },
            body: CommandBody::Disconnect { data: 0 },
            data: vec![],
        }]
    );
    assert_eq!(peer.next_datagram(40), None);
    assert!(!peer.service_timeouts(100_000));
    assert_eq!(peer.next_datagram(100_000), None);
    assert_eq!(peer.reliable_data_in_transit(), 0);
    let session = peer.session();
    assert_eq!((session.incoming_session_id, session.outgoing_session_id), (1, 2));
    assert_eq!(session.connect_id, 0xABCD);
    assert_eq!(
        Session { incoming_session_id: 0xFF, outgoing_session_id: 0xFF, connect_id: 0, ..session },
        Session::new()
    );
    // the next session in the slot gets another nonce, whatever is drawn
    assert!(peer.connect(REMOTE, 1, 0, 0xABCD, &settings()));
    assert_eq!(peer.session().connect_id, 0xABCE);
    peer.reset();
    assert!(peer.connect(REMOTE, 1, 0, 0xABCD, &settings()));
    assert_eq!(peer.session().connect_id, 0xABCD);
}

#[test]
fn remote_disconnect_is_acknowledged_at_once() {
    let mut peer = client();
    peer.send(0, &Packet::reliable(b"x".to_vec())).unwrap();
    peer.handle(control(5, CommandBody::Disconnect { data: 77 }), Some(0x1234), 40);
    assert_eq!(peer.state(), PeerState::Zombie);
    let out = peer.next_datagram(40).unwrap();
    let datagram = Datagram::decode(&out.bytes, false).unwrap();
    assert_eq!(
        datagram.commands[0].body,
        CommandBody::Acknowledge { received_reliable_sequence_number: 5, received_sent_time: 0x1234 }
    );
    assert_eq!(datagram.commands.len(), 1);
    assert_eq!(peer.next_datagram(40), None);
    assert_eq!(peer.poll_event(), Some(Event::Disconnect { peer: PeerID(3), data: 0 }));
    assert_eq!(peer.state(), PeerState::Disconnected);
}

#[test]
fn setters_change_what_they_name() {
    let mut peer = client();
    peer.set_timeout(4, 0, 9000);
    assert_eq!(peer.timeout(), TimeoutPolicy { limit: 4, minimum: 5000, maximum: 9000 });
    peer.set_throttle(700, 5, 6);
    let throttle = peer.throttle();
    assert_eq!((throttle.interval, throttle.acceleration, throttle.deceleration), (700, 5, 6));
    assert_eq!(
        flush(&mut peer, 40),
        vec![control(2, CommandBody::ThrottleConfigure { interval: 700, acceleration: 5, deceleration: 6 })]
    );
    let mut fresh = Peer::new(PeerID(0));
    fresh.set_throttle(700, 5, 6);
    assert_eq!(fresh.throttle().interval, 700);
    assert_eq!(fresh.next_datagram(0), None);
}

#[test]
fn received_messages_become_events_in_order() {
    let mut peer = client();
    let data = |channel_id: u8, sequence: u16, bytes: &[u8]| Command {
        header: CommandHeader {
            acknowledge: true,
            unsequenced: false,
            channel_id,
            reliable_sequence_number: sequence,
        },
        body: CommandBody::SendReliable,
        data: bytes.to_vec(),
    };
    peer.handle(data(0, 2, b"b"), Some(1), 40);
    assert_eq!(peer.poll_event(), None);
    peer.handle(data(1, 1, b"x"), Some(1), 40);
    peer.handle(data(0, 1, b"a"), Some(1), 40);
    peer.handle(data(0, 1, b"a"), Some(1), 40);
    // a channel the peer does not have
    peer.handle(data(2, 1, b"?"), Some(1), 40);
    let mut events = Vec::new();
    while let Some(event) = peer.poll_event() {
        events.push(event);
    }
    let receive = |channel_id: u8, bytes: &[u8]| Event::Receive {
        peer: PeerID(3),
        channel_id,
        packet: Packet::reliable(bytes.to_vec()),
    };
    assert_eq!(events, vec![receive(1, b"x"), receive(0, b"a"), receive(0, b"b")]);
    // every one of them is acknowledged, the duplicate and the stray too
    let sent = flush(&mut peer, 40);
    let acknowledged: Vec<(u8, u16)> = sent
        .iter()
        .map(|c| (c.header.channel_id, c.header.reliable_sequence_number))
        .collect();
    assert_eq!(acknowledged, vec![(0, 2), (1, 1), (0, 1), (0, 1), (2, 1)]);
    assert!(sent.iter().all(|c| c.body.number() == 1));
}

#[test]
fn unsequenced_messages_are_handed_out_once() {
    let mut peer = client();
    let unsequenced = |group: u16| Command {
        header: CommandHeader {
            acknowledge: false,
            unsequenced: true,
            channel_id: 1,
            reliable_sequence_number: 0,
        },
        body: CommandBody::SendUnsequenced { unsequenced_group: group },
        data: vec![group as u8],
    };
    for group in [2, 1, 2, 1, 3] {
        peer.handle(unsequenced(group), None, 40);
    }
    let mut seen = Vec::new();
    while let Some(Event::Receive { packet, channel_id, .. }) = peer.poll_event() {
        assert_eq!(channel_id, 1);
        assert_eq!(packet.flags(), Packet::unsequenced(vec![]).flags());
        seen.push(packet.data()[0]);
    }
    assert_eq!(seen, vec![2, 1, 3]);
}

#[test]
fn acknowledgement_outside_the_window_spoils_the_datagram() {
    let mut peer = client();
    peer.send(0, &Packet::reliable(b"x".to_vec())).unwrap();
    flush(&mut peer, 40);
    let datagram = |commands: Vec<Command>| Datagram {
        header: ProtocolHeader { peer_id: 3, session_id: 1, sent_time: Some(0) },
        checksum: None,
        commands,
    };
    assert!(peer.can_acknowledge(0, 1));
    assert!(peer.can_acknowledge(0, 0));
    assert!(!peer.can_acknowledge(0, 2));
    assert!(!peer.can_acknowledge(2, 1));
    assert!(peer.can_acknowledge(0xFF, 1));
    assert!(!peer.can_acknowledge(0xFF, 2));
    // sequence number 2 has not been given out on channel 0
    assert!(!peer.receive(datagram(vec![acknowledgement(0, 1), acknowledgement(0, 2)]), 20, 50));
    assert_eq!(peer.reliable_data_in_transit(), 1);
    assert_eq!(peer.incoming_data_total(), 0);
    assert!(peer.receive(datagram(vec![acknowledgement(0, 1), acknowledgement(0, 0)]), 20, 50));
    assert_eq!(peer.reliable_data_in_transit(), 0);
    assert_eq!(peer.incoming_data_total(), 20);
}

#[test]
fn idle_peer_pings_after_the_interval() {
    let mut peer = client();
    assert_eq!(flush(&mut peer, 519), vec![]);
    assert_eq!(flush(&mut peer, 520), vec![control(2, CommandBody::Ping)]);
    // the ping awaits its acknowledgement: no second one
    assert_eq!(flush(&mut peer, 2000), vec![]);
    peer.handle(acknowledgement(0xFF, 2), Some(0), 2000);
    assert_eq!(flush(&mut peer, 2499), vec![]);
    assert_eq!(flush(&mut peer, 2500), vec![control(3, CommandBody::Ping)]);
}

#[test]
fn unacknowledged_command_is_sent_again_with_doubled_timeout() {
    let mut peer = client();
    // mean 10, variance 5: the first timeout is 30 milliseconds
    peer.ping().unwrap();
    assert_eq!(flush(&mut peer, 100), vec![control(2, CommandBody::Ping)]);
    assert!(!peer.service_timeouts(129));
    assert_eq!(flush(&mut peer, 129), vec![]);
    assert_eq!(peer.packets_lost(), 0);
    assert!(!peer.service_timeouts(130));
    assert_eq!(peer.packets_lost(), 1);
    assert_eq!(flush(&mut peer, 130), vec![control(2, CommandBody::Ping)]);
    // sent again at 130 with a timeout of 60
    assert!(!peer.service_timeouts(189));
    assert_eq!(flush(&mut peer, 189), vec![]);
    assert!(!peer.service_timeouts(190));
    assert_eq!(flush(&mut peer, 190), vec![control(2, CommandBody::Ping)]);
    assert_eq!(peer.packets_lost(), 2);
    // the round-trip time is measured from the first transmission
    peer.handle(acknowledgement(0xFF, 2), Some(0), 200);
    assert_eq!(peer.round_trip().last, 100);
    assert_eq!(peer.reliable_data_in_transit(), 0);
}

#[test]
fn peer_at_the_limit_is_given_up_after_the_minimum() {
    let mut peer = client();
    peer.set_timeout(2, 1000, 60_000);
    peer.ping().unwrap();
    flush(&mut peer, 100);
    let mut now = 100;
    let mut given_up = None;
    while now < 5000 && given_up.is_none() {
        now += 10;
        if peer.service_timeouts(now) {
            given_up = Some(now);
        }
        flush(&mut peer, now);
    }
    assert_eq!(given_up, Some(1100));
    assert_eq!(peer.state(), PeerState::Zombie);
    assert_eq!(peer.poll_event(), Some(Event::Disconnect { peer: PeerID(3), data: 0 }));
}

#[test]
fn window_holds_back_reliable_data() {
    let mut peer = client();
    for _ in 0..60 {
        peer.send(0, &Packet::reliable(vec![0; 1360])).unwrap();
    }
    let mut sent = 0;
    while !flush(&mut peer, 40).is_empty() {
        sent += 1;
    }
    // 48 commands of 1360 bytes fill the window of 65536 bytes
    assert_eq!(sent, 48);
    assert_eq!(peer.reliable_data_in_transit(), 48 * 1360);
    peer.handle(acknowledgement(0, 1), Some(0), 50);
    assert_eq!(flush(&mut peer, 50).len(), 1);
    assert_eq!(flush(&mut peer, 50).len(), 0);
    assert_eq!(peer.reliable_data_in_transit(), 48 * 1360);
}

#[test]
fn datagrams_respect_mtu_and_command_count() {
    let mut peer = client();
    for _ in 0..100 {
        peer.send(0, &Packet::unsequenced(vec![1])).unwrap();
    }
    let first = peer.next_datagram(40).unwrap();
    assert_eq!(Datagram::decode(&first.bytes, false).unwrap().commands.len(), 32);
    for _ in 0..10 {
        peer.send(0, &Packet::unsequenced(vec![0; 600])).unwrap();
    }
    while let Some(out) = peer.next_datagram(40) {
        assert!(out.bytes.len() <= 1392);
    }
    assert_eq!(peer.outgoing_data_total() > 6000, true);
}

#[test]
fn host_parameters_are_checked() {
    assert_eq!(Host::new(0, 1, 0, 0, 0).err(), Some(InvalidParameters));
    assert_eq!(Host::new(4096, 1, 0, 0, 0).err(), Some(InvalidParameters));
    assert_eq!(Host::new(1, 0, 0, 0, 0).err(), Some(InvalidParameters));
    assert_eq!(Host::new(1, 256, 0, 0, 0).err(), Some(InvalidParameters));
    let host = Host::new(4095, 255, 10, 20, 0).unwrap();
    assert_eq!(host.peer_count(), 4095);
    assert_eq!(
        host.settings(),
        HostSettings { mtu: 1392, incoming_bandwidth: 10, outgoing_bandwidth: 20, channel_limit: 255 }
    );
    assert_eq!(host.peer(PeerID(4094)).unwrap().id(), PeerID(4094));
    assert!(host.peer(PeerID(4095)).is_none());
    assert_eq!(host.dropped(), 0);
}

#[test]
fn host_settings_can_be_changed() {
    let mut host = Host::new(1, 1, 0, 0, 0).unwrap();
    host.bandwidth_limit(5, 6);
    host.channel_limit(0);
    assert_eq!(host.settings().channel_limit, 1);
    host.channel_limit(1000);
    host.set_mtu(700);
    assert_eq!(
        host.settings(),
        HostSettings { mtu: 700, incoming_bandwidth: 5, outgoing_bandwidth: 6, channel_limit: 255 }
    );
}

#[test]
fn host_has_one_session_per_address() {
    let mut host = Host::new(3, 1, 0, 0, 0).unwrap();
    let other = Address { host: 5, port: 5 };
    assert_eq!(host.connect(REMOTE, 1, 0), Ok(PeerID(0)));
    assert_eq!(host.connect(REMOTE, 1, 0), Err(NoPeerAvailable));
    assert_eq!(host.connect(other, 1, 0), Ok(PeerID(1)));
    assert_eq!(host.connect(Address { port: 6, ..other }, 1, 0), Ok(PeerID(2)));
    assert_eq!(host.connect(Address { port: 7, ..other }, 1, 0), Err(NoPeerAvailable));
    host.reset(PeerID(1));
    assert_eq!(host.connect(REMOTE, 1, 0), Err(NoPeerAvailable));
    assert_eq!(host.connect(other, 1, 0), Ok(PeerID(1)));
    let nonces: Vec<u32> = (0..3).map(|i| host.peer(PeerID(i)).unwrap().session().connect_id).collect();
    assert!(nonces[0] != nonces[1] && nonces[1] != nonces[2] && nonces[0] != nonces[2]);
}

#[test]
fn host_passes_peer_operations_on() {
    let mut host = Host::new(2, 1, 0, 0, 0).unwrap();
    let packet = Packet::reliable(vec![1]);
    assert_eq!(host.send(PeerID(2), 0, &packet), Err(HostError::NoSuchPeer));
    assert_eq!(host.send(PeerID(1), 0, &packet), Err(HostError::Send(PeerSendError::PeerNotConnected)));
    assert_eq!(host.ping(PeerID(1)), Err(NotConnected));
    assert_eq!(host.ping(PeerID(2)), Err(NotConnected));
    assert_eq!(host.disconnect(PeerID(0), 0), Err(NotConnected));
    assert_eq!(host.disconnect_later(PeerID(0), 0), Err(NotConnected));
    host.set_timeout(PeerID(1), 9, 8, 7);
    host.set_timeout(PeerID(2), 9, 8, 7);
    host.set_ping_interval(PeerID(1), 321);
    host.set_throttle(PeerID(1), 1, 2, 3);
    let peer = host.peer(PeerID(1)).unwrap();
    assert_eq!(peer.timeout(), TimeoutPolicy { limit: 9, minimum: 8, maximum: 7 });
    assert_eq!(peer.ping_interval(), Duration::from_millis(321));
    assert_eq!(peer.throttle().deceleration, 3);
    host.connect(REMOTE, 1, 0).unwrap();
    host.disconnect_now(PeerID(0), 0);
    host.disconnect_now(PeerID(5), 0);
    assert_eq!(host.peer(PeerID(0)).unwrap().state(), PeerState::Disconnected);
    host.broadcast(0, &packet);
    assert!(host.next_datagram(0).is_some());
    assert!(host.next_datagram(0).is_none());
}

#[test]
fn host_drops_what_it_cannot_place() {
    let mut host = Host::new(1, 1, 0, 0, 0).unwrap();
    assert!(!host.receive(REMOTE, &[], 0));
    assert!(!host.receive(REMOTE, &[0x0F, 0xFF, 0x05, 0xFF, 0, 1], 0));
    assert!(!host.receive(REMOTE, &[0x00, 0x07, 0x05, 0xFF, 0, 1], 0));
    assert!(!host.receive(REMOTE, &[0x00, 0x00, 0x05, 0xFF, 0, 1], 0));
    assert_eq!(host.dropped(), 4);
    assert_eq!(host.poll_event(), None);
    host.service_timeouts(0);
    assert!(host.next_datagram(0).is_none());
}

#[test]
fn reset_of_a_peer_without_a_session_sends_nothing() {
    let mut fresh = Peer::new(PeerID(0));
    fresh.reset();
    assert_eq!(fresh.state(), PeerState::Disconnected);
    assert_eq!(fresh.next_datagram(0), None);
    // a zombie has no session any more
    let mut peer = client();
    peer.handle(control(5, CommandBody::Disconnect { data: 1 }), None, 40);
    assert_eq!(peer.state(), PeerState::Zombie);
    peer.reset();
    assert_eq!(peer.state(), PeerState::Disconnected);
    assert_eq!(peer.next_datagram(50), None);
    assert_eq!(peer.poll_event(), None);
    // a peer that is setting a session up tells the remote host
    let mut connecting = Peer::new(PeerID(0));
    connecting.connect(REMOTE, 1, 0, 1, &settings());
    connecting.reset();
    let out = connecting.next_datagram(0).unwrap();
    let datagram = Datagram::decode(&out.bytes, false).unwrap();
    assert_eq!(datagram.header.peer_id, 0xFFF);
    assert_eq!(datagram.commands[0].body, CommandBody::Disconnect { data: 0 });
    assert_eq!(connecting.next_datagram(0), None);
}

/// What the application of the peer is handed, event by event.
fn drain(peer: &mut Peer) -> Vec<Event> {
    let mut events = Vec::new();
    while let Some(event) = peer.poll_event() {
        events.push(event);
    }
    events
}

/// All the commands that the peer sends at `now`, datagram by datagram.
fn flush_all(peer: &mut Peer, now: u32) -> Vec<Command> {
    let mut commands = Vec::new();
    for _ in 0..64 {
        commands.extend(flush(peer, now));
    }
    commands
}

#[test]
fn reliable_packets_arrive_in_the_order_sent() {
    let mut sender = client();
    let mut receiver = client();
    for message in [b"a", b"b", b"c", b"d"] {
        sender.send(1, &Packet::reliable(message.to_vec())).unwrap();
    }
    let sent = flush_all(&mut sender, 50);
    assert_eq!(sent.len(), 4);
    // the network reorders and repeats
    for i in [2usize, 0, 0, 3, 1, 2, 1, 3, 0] {
        receiver.handle(sent[i].clone(), Some(50), 60);
    }
    let receive = |bytes: &[u8]| Event::Receive {
        peer: PeerID(3),
        channel_id: 1,
        packet: Packet::reliable(bytes.to_vec()),
    };
    assert_eq!(drain(&mut receiver), vec![receive(b"a"), receive(b"b"), receive(b"c"), receive(b"d")]);
}

#[test]
fn reliable_packets_are_delivered_up_to_the_first_gap() {
    let mut sender = client();
    let mut receiver = client();
    for message in [b"a", b"b", b"c", b"d"] {
        sender.send(0, &Packet::reliable(message.to_vec())).unwrap();
    }
    let sent = flush_all(&mut sender, 50);
    // the third message is lost
    for i in [3usize, 1, 0] {
        receiver.handle(sent[i].clone(), Some(50), 60);
    }
    let receive = |bytes: &[u8]| Event::Receive {
        peer: PeerID(3),
        channel_id: 0,
        packet: Packet::reliable(bytes.to_vec()),
    };
    assert_eq!(drain(&mut receiver), vec![receive(b"a"), receive(b"b")]);
    // and comes with the next transmission
    receiver.handle(sent[2].clone(), Some(50), 900);
    assert_eq!(drain(&mut receiver), vec![receive(b"c"), receive(b"d")]);
    receiver.handle(sent[2].clone(), Some(50), 900);
    assert_eq!(drain(&mut receiver), vec![]);
}

#[test]
fn large_packet_arrives_whole_in_any_order() {
    for mtu in [576u32, 1392, 4096] {
        let host = HostSettings { mtu, ..settings() };
        let mut sender = client_of(&host);
        let mut receiver = client_of(&host);
        let payload: Vec<u8> = (0..10_000u32).map(|i| (i * 7) as u8).collect();
        sender.send(0, &Packet::reliable(payload.clone())).unwrap();
        let sent = flush_all(&mut sender, 50);
        let pieces = (10_000 + mtu as usize - 32 - 1) / (mtu as usize - 32);
        assert_eq!(sent.len(), pieces);
        // backwards, the middle one twice
        for i in (0..pieces).rev() {
            receiver.handle(sent[i].clone(), Some(50), 60);
            if i == pieces / 2 {
                receiver.handle(sent[i].clone(), Some(50), 60);
            }
            if i > 0 {
                assert_eq!(receiver.poll_event(), None);
            }
        }
        assert_eq!(
            drain(&mut receiver),
            vec![Event::Receive { peer: PeerID(3), channel_id: 0, packet: Packet::reliable(payload) }]
        );
        // a late copy of a piece changes nothing
        receiver.handle(sent[0].clone(), Some(50), 70);
        assert_eq!(drain(&mut receiver), vec![]);
    }
}

#[test]
fn unreliable_packet_arrives_at_most_once_and_not_behind_a_later_one() {
    let mut sender = client();
    let mut receiver = client();
    for message in [b"a", b"b", b"c"] {
        sender.send(0, &Packet::unreliable(message.to_vec())).unwrap();
    }
    let sent = flush_all(&mut sender, 50);
    assert_eq!(sent.len(), 3);
    let receive = |bytes: &[u8]| Event::Receive {
        peer: PeerID(3),
        channel_id: 0,
        packet: Packet::unreliable(bytes.to_vec()),
    };
    receiver.handle(sent[1].clone(), Some(50), 60);
    assert_eq!(drain(&mut receiver), vec![receive(b"b")]);
    // the same again, and the one before it
    receiver.handle(sent[1].clone(), Some(50), 60);
    receiver.handle(sent[0].clone(), Some(50), 60);
    assert_eq!(drain(&mut receiver), vec![]);
    receiver.handle(sent[2].clone(), Some(50), 60);
    receiver.handle(sent[2].clone(), Some(50), 60);
    assert_eq!(drain(&mut receiver), vec![receive(b"c")]);
}
