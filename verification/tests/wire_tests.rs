use rusty_enet::bytes::{copy_range, push_all, push_be16, push_be32, read_be16, read_be32};
use rusty_enet::datagram::{Datagram, DatagramError, ProtocolHeader};
use rusty_enet::wire::{
    fixed_size, Command, CommandBody, CommandHeader, DecodeError, FragmentInfo, Handshake,
};

fn header(channel_id: u8, sequence: u16, acknowledge: bool) -> CommandHeader {
    CommandHeader { acknowledge, unsequenced: false, channel_id, reliable_sequence_number: sequence }
}

fn handshake() -> Handshake {
    Handshake {
        outgoing_peer_id: 0x0102,
        incoming_session_id: 0x03,
        outgoing_session_id: 0x04,
        mtu: 0x0506_0708,
        window_size: 0x090A_0B0C,
        channel_count: 0x0D0E_0F10,
        incoming_bandwidth: 0x1112_1314,
        outgoing_bandwidth: 0x1516_1718,
        packet_throttle_interval: 0x191A_1B1C,
        packet_throttle_acceleration: 0x1D1E_1F20,
        packet_throttle_deceleration: 0x2122_2324,
        connect_id: 0x2526_2728,
    }
}

fn fragment() -> FragmentInfo {
    FragmentInfo {
        start_sequence_number: 0x0A0B,
        fragment_count: 3,
        fragment_number: 1,
        total_length: 10,
        fragment_offset: 4,
    }
}

fn every_kind() -> Vec<Command> {
    let plain = |body: CommandBody, ack: bool| Command { header: header(3, 0x1234, ack), body, data: vec![] };
    let loaded = |body: CommandBody, ack: bool| Command {
        header: header(3, 0x1234, ack),
        body,
        data: vec![9, 8, 7, 6],
    };
    vec![
        plain(
            CommandBody::Acknowledge {
                received_reliable_sequence_number: 0xABCD,
                received_sent_time: 0x00FF,
            },
            false,
        ),
        plain(CommandBody::Connect { handshake: handshake(), data: 0xDEAD_BEEF }, true),
        plain(CommandBody::VerifyConnect { handshake: handshake() }, true),
        plain(CommandBody::Disconnect { data: 77 }, true),
        plain(CommandBody::Ping, true),
        loaded(CommandBody::SendReliable, true),
        loaded(CommandBody::SendUnreliable { unreliable_sequence_number: 0x0405 }, false),
        loaded(CommandBody::SendFragment { fragment: fragment() }, true),
        Command {
            header: CommandHeader {
                acknowledge: false,
                unsequenced: true,
                channel_id: 1,
                reliable_sequence_number: 0,
            },
            body: CommandBody::SendUnsequenced { unsequenced_group: 0x0607 },
            data: vec![1, 2, 3],
        },
        plain(CommandBody::BandwidthLimit { incoming_bandwidth: 1000, outgoing_bandwidth: 2000 }, true),
        plain(CommandBody::ThrottleConfigure { interval: 5000, acceleration: 2, deceleration: 3 }, true),
        loaded(CommandBody::SendUnreliableFragment { fragment: fragment() }, false),
    ]
}

#[test]
fn big_endian_integers_are_written_most_significant_byte_first() {
    let mut out = vec![0xEE];
    push_be16(&mut out, 0x0102);
    push_be32(&mut out, 0x0304_0506);
    assert_eq!(out, vec![0xEE, 1, 2, 3, 4, 5, 6]);
    assert_eq!(read_be16(&out, 1), 0x0102);
    assert_eq!(read_be32(&out, 3), 0x0304_0506);
    assert_eq!(read_be16(&[0xFF, 0xFF], 0), 0xFFFF);
    assert_eq!(read_be32(&[0xFF, 0xFF, 0xFF, 0xFF], 0), 0xFFFF_FFFF);
}

#[test]
fn byte_ranges_are_copied_and_appended() {
    assert_eq!(copy_range(&[1, 2, 3, 4, 5], 1, 4), vec![2, 3, 4]);
    assert_eq!(copy_range(&[1, 2, 3], 3, 3), Vec::<u8>::new());
    let mut out = vec![7];
    push_all(&mut out, &[8, 9]);
    assert_eq!(out, vec![7, 8, 9]);
}

#[test]
fn ping_encodes_to_four_bytes() {
    let command = Command { header: header(0xFF, 0x0102, true), body: CommandBody::Ping, data: vec![] };
    let mut out = Vec::new();
    command.encode(&mut out);
    assert_eq!(out, vec![0x85, 0xFF, 0x01, 0x02]);
    assert_eq!(command.size(), 4);
}

#[test]
fn acknowledge_encodes_its_two_fields() {
    let command = Command {
        header: header(2, 0x0A0B, false),
        body: CommandBody::Acknowledge {
            received_reliable_sequence_number: 0x0A0B,
            received_sent_time: 0x1122,
        },
        data: vec![],
    };
    let mut out = Vec::new();
    command.encode(&mut out);
    assert_eq!(out, vec![0x01, 0x02, 0x0A, 0x0B, 0x0A, 0x0B, 0x11, 0x22]);
}

#[test]
fn send_reliable_encodes_length_and_payload() {
    let command = Command {
        header: header(0, 1, true),
        body: CommandBody::SendReliable,
        data: b"ping".to_vec(),
    };
    let mut out = Vec::new();
    command.encode(&mut out);
    assert_eq!(out, vec![0x86, 0x00, 0x00, 0x01, 0x00, 0x04, 0x70, 0x69, 0x6E, 0x67]);
}

#[test]
fn unsequenced_flag_is_bit_six() {
    let command = Command {
        header: CommandHeader {
            acknowledge: false,
            unsequenced: true,
            channel_id: 1,
            reliable_sequence_number: 0,
        },
        body: CommandBody::SendUnsequenced { unsequenced_group: 0x0102 },
        data: vec![0xAA],
    };
    let mut out = Vec::new();
    command.encode(&mut out);
    assert_eq!(out, vec![0x49, 0x01, 0x00, 0x00, 0x01, 0x02, 0x00, 0x01, 0xAA]);
}

#[test]
fn connect_encodes_to_forty_eight_bytes() {
    let command = Command {
        header: header(0xFF, 1, true),
        body: CommandBody::Connect { handshake: handshake(), data: 0x292A_2B2C },
        data: vec![],
    };
    let mut out = Vec::new();
    command.encode(&mut out);
    let mut expected = vec![0x82, 0xFF, 0x00, 0x01];
    expected.extend(1..=0x2Cu8);
    assert_eq!(out, expected);
    assert_eq!(out.len(), 48);
}

#[test]
fn fragment_encodes_its_fields_in_wire_order() {
    let command = Command {
        header: header(1, 0x0A0C, true),
        body: CommandBody::SendFragment { fragment: fragment() },
        data: vec![5, 6, 7, 8],
    };
    let mut out = Vec::new();
    command.encode(&mut out);
    assert_eq!(
        out,
        vec![
            0x88, 0x01, 0x0A, 0x0C, 0x0A, 0x0B, 0x00, 0x04, 0, 0, 0, 3, 0, 0, 0, 1, 0, 0, 0, 10, 0,
            0, 0, 4, 5, 6, 7, 8
        ]
    );
}

#[test]
fn fixed_sizes_are_those_of_the_protocol() {
    let sizes: Vec<usize> = (0..=13).map(fixed_size).collect();
    assert_eq!(sizes, vec![0, 8, 48, 44, 8, 4, 6, 8, 24, 8, 12, 16, 24, 0]);
}

#[test]
fn command_numbers_are_those_of_the_protocol() {
    let numbers: Vec<u8> = every_kind().iter().map(|c| c.body.number()).collect();
    assert_eq!(numbers, (1..=12).collect::<Vec<u8>>());
    let carriers: Vec<bool> = every_kind().iter().map(|c| c.body.carries_data()).collect();
    assert_eq!(
        carriers,
        vec![false, false, false, false, false, true, true, true, true, false, false, true]
    );
}

#[test]
fn every_command_decodes_back_to_itself() {
    for command in every_kind() {
        assert!(command.is_well_formed());
        let mut bytes = vec![0xAA, 0xBB];
        command.encode(&mut bytes);
        bytes.extend([0xCC, 0xDD, 0xEE]);
        let end = 2 + command.size();
        assert_eq!(bytes.len(), end + 3);
        assert_eq!(Command::decode(&bytes, 2), Ok((command, end)));
    }
}

#[test]
fn every_decoded_command_encodes_back_to_its_bytes() {
    let bytes = vec![0x86, 0x02, 0x00, 0x07, 0x00, 0x03, 1, 2, 3, 0x05, 0xFF, 0x00, 0x09];
    let (first, end) = Command::decode(&bytes, 0).unwrap();
    assert_eq!(end, 9);
    let (second, end) = Command::decode(&bytes, end).unwrap();
    assert_eq!(end, 13);
    let mut out = Vec::new();
    first.encode(&mut out);
    second.encode(&mut out);
    assert_eq!(out, bytes);
}

#[test]
fn unused_bits_of_the_command_byte_are_ignored() {
    let (command, end) = Command::decode(&[0x35, 0x01, 0x00, 0x02], 0).unwrap();
    assert_eq!(end, 4);
    assert_eq!(command, Command { header: header(1, 2, false), body: CommandBody::Ping, data: vec![] });
}

#[test]
fn truncated_command_is_refused() {
    assert_eq!(Command::decode(&[0x85, 0xFF, 0x01], 0), Err(DecodeError::Truncated));
    assert_eq!(Command::decode(&[0x85, 0xFF, 0x01, 0x02], 1), Err(DecodeError::Truncated));
    assert_eq!(Command::decode(&[], 0), Err(DecodeError::Truncated));
    assert_eq!(Command::decode(&[1, 2, 3, 4], 9), Err(DecodeError::Truncated));
    // An acknowledgement needs eight bytes.
    assert_eq!(Command::decode(&[0x01, 0, 0, 1, 0, 1, 0], 0), Err(DecodeError::Truncated));
    // The payload length claims more bytes than there are.
    assert_eq!(Command::decode(&[0x86, 0, 0, 1, 0, 5, 1, 2, 3, 4], 0), Err(DecodeError::Truncated));
}

#[test]
fn unknown_command_is_refused() {
    assert_eq!(Command::decode(&[0x00, 0, 0, 0], 0), Err(DecodeError::UnknownCommand));
    assert_eq!(Command::decode(&[0x0D, 0, 0, 0], 0), Err(DecodeError::UnknownCommand));
    assert_eq!(Command::decode(&[0x8F, 0, 0, 0], 0), Err(DecodeError::UnknownCommand));
}

#[test]
fn commands_that_cannot_be_written_are_told_apart() {
    let too_long = Command {
        header: header(0, 1, true),
        body: CommandBody::SendReliable,
        data: vec![0; 0x1_0000],
    };
    assert!(!too_long.is_well_formed());
    let longest = Command {
        header: header(0, 1, true),
        body: CommandBody::SendReliable,
        data: vec![0; 0xFFFF],
    };
    assert!(longest.is_well_formed());
    let stray = Command { header: header(0, 1, true), body: CommandBody::Ping, data: vec![1] };
    assert!(!stray.is_well_formed());
}

#[test]
fn protocol_header_packs_peer_session_and_flags() {
    let mut out = Vec::new();
    ProtocolHeader { peer_id: 0x0ABC, session_id: 2, sent_time: None }.encode(&mut out);
    assert_eq!(out, vec![0x2A, 0xBC]);
    let mut out = Vec::new();
    ProtocolHeader { peer_id: 0x0FFF, session_id: 3, sent_time: Some(0x1234) }.encode(&mut out);
    assert_eq!(out, vec![0xBF, 0xFF, 0x12, 0x34]);
    assert!(ProtocolHeader { peer_id: 0x0FFF, session_id: 3, sent_time: None }.is_well_formed());
    assert!(!ProtocolHeader { peer_id: 0x1000, session_id: 0, sent_time: None }.is_well_formed());
    assert!(!ProtocolHeader { peer_id: 0, session_id: 4, sent_time: None }.is_well_formed());
}

#[test]
fn datagram_decodes_back_to_itself() {
    for checksum in [None, Some(0xCAFE_F00Du32)] {
        for sent_time in [None, Some(0xBEEFu16)] {
            let datagram = Datagram {
                header: ProtocolHeader { peer_id: 5, session_id: 1, sent_time },
                checksum,
                commands: every_kind(),
            };
            assert!(datagram.is_well_formed());
            let bytes = datagram.encode();
            assert_eq!(Datagram::decode(&bytes, checksum.is_some()), Ok(datagram));
        }
    }
}

#[test]
fn datagram_bytes_are_header_checksum_and_commands() {
    let datagram = Datagram {
        header: ProtocolHeader { peer_id: 1, session_id: 0, sent_time: Some(2) },
        checksum: Some(0x0A0B_0C0D),
        commands: vec![Command { header: header(0xFF, 3, true), body: CommandBody::Ping, data: vec![] }],
    };
    assert_eq!(
        datagram.encode(),
        vec![0x80, 0x01, 0x00, 0x02, 0x0A, 0x0B, 0x0C, 0x0D, 0x85, 0xFF, 0x00, 0x03]
    );
}

#[test]
fn malformed_datagrams_are_refused() {
    assert_eq!(Datagram::decode(&[], false), Err(DatagramError::TooShort));
    assert_eq!(Datagram::decode(&[0x00], false), Err(DatagramError::TooShort));
    // The sent time is announced but missing.
    assert_eq!(Datagram::decode(&[0x80, 0x01, 0x00], false), Err(DatagramError::TooShort));
    // The checksum is expected but missing.
    assert_eq!(Datagram::decode(&[0x00, 0x01, 0x00, 0x02], true), Err(DatagramError::TooShort));
    assert_eq!(Datagram::decode(&[0x40, 0x01, 0x85, 0xFF, 0, 1], false), Err(DatagramError::Compressed));
    assert_eq!(Datagram::decode(&[0x00, 0x01], false), Err(DatagramError::Empty));
    assert_eq!(
        Datagram::decode(&[0x00, 0x01, 0x85, 0xFF, 0x00], false),
        Err(DatagramError::Command(DecodeError::Truncated))
    );
    assert_eq!(
        Datagram::decode(&[0x00, 0x01, 0x85, 0xFF, 0x00, 0x01, 0x0E, 0, 0, 0], false),
        Err(DatagramError::Command(DecodeError::UnknownCommand))
    );
    let empty = Datagram {
        header: ProtocolHeader { peer_id: 1, session_id: 0, sent_time: None },
        checksum: None,
        commands: vec![],
    };
    assert!(!empty.is_well_formed());
}
