//! The wire codec for protocol commands.
//!
//! A command is a four-byte command header (type and flags, channel,
//! reliable sequence number), the fixed fields of its type and, for the
//! commands that carry a payload, the payload bytes. All integers are
//! big-endian.

use vstd::prelude::*;
use crate::bytes::{
    be16, be16_at, be32, be32_at, copy_range, lemma_be16_at_round_trip,
    lemma_be32_at_round_trip, lemma_join16_of_bytes, lemma_join32_of_bytes, push_all, push_be16,
    push_be32, read_be16, read_be32,
};

verus! {

/// Bit of the command byte that asks the receiver for an acknowledgement.
pub const COMMAND_FLAG_ACKNOWLEDGE: u8 = 0x80;

/// Bit of the command byte that marks a command as unsequenced.
pub const COMMAND_FLAG_UNSEQUENCED: u8 = 0x40;

/// Bits of the command byte that hold the command number.
pub const COMMAND_MASK: u8 = 0x0F;

/// Length in bytes of the command header.
pub const COMMAND_HEADER_SIZE: usize = 4;

/// The header every command starts with.
#[derive(Debug, Clone, Copy, PartialEq, Eq)]
pub struct CommandHeader {
    /// The receiver must acknowledge this command.
    pub acknowledge: bool,
    /// The command is outside the channel's sequence.
    pub unsequenced: bool,
    /// The channel the command belongs to; `0xFF` for connection control.
    pub channel_id: u8,
    /// The command's reliable sequence number on its channel.
    pub reliable_sequence_number: u16,
}

/// The parameters both sides exchange during the handshake.
#[derive(Debug, Clone, Copy, PartialEq, Eq)]
pub struct Handshake {
    /// The slot that the sender has given the session.
    pub outgoing_peer_id: u16,
    /// The session number of the datagrams that the sender receives.
    pub incoming_session_id: u8,
    /// The session number of the datagrams that the sender sends.
    pub outgoing_session_id: u8,
    /// Largest datagram, in bytes, that the sender takes.
    pub mtu: u32,
    /// Largest amount of reliable data, in bytes, that may be in transit.
    pub window_size: u32,
    /// Number of channels of the session.
    pub channel_count: u32,
    /// Downstream bandwidth of the sender in bytes per second.
    pub incoming_bandwidth: u32,
    /// Upstream bandwidth of the sender in bytes per second.
    pub outgoing_bandwidth: u32,
    /// Length in milliseconds of a throttle measurement interval.
    pub packet_throttle_interval: u32,
    /// Amount by which the throttle rises.
    pub packet_throttle_acceleration: u32,
    /// Amount by which the throttle falls.
    pub packet_throttle_deceleration: u32,
    /// The nonce of the session.
    pub connect_id: u32,
}

/// Where a fragment belongs in the message it is a part of.
#[derive(Debug, Clone, Copy, PartialEq, Eq)]
pub struct FragmentInfo {
    /// Sequence number of the message's first fragment.
    pub start_sequence_number: u16,
    /// Number of fragments the message was split into.
    pub fragment_count: u32,
    /// Index of this fragment among them.
    pub fragment_number: u32,
    /// Length in bytes of the whole message.
    pub total_length: u32,
    /// Offset of this fragment's bytes in the message.
    pub fragment_offset: u32,
}

/// The type of a command with the fixed fields of that type.
#[derive(Debug, Clone, Copy, PartialEq, Eq)]
pub enum CommandBody {
    /// A reliable command has arrived; `received_sent_time` is the sent
    /// time of the datagram that brought it.
    Acknowledge { received_reliable_sequence_number: u16, received_sent_time: u16 },
    /// A host asks for a session.
    Connect { handshake: Handshake, data: u32 },
    /// The answer to a connect.
    VerifyConnect { handshake: Handshake },
    /// The session ends.
    Disconnect { data: u32 },
    /// A keepalive, which is acknowledged and so measures the round trip.
    Ping,
    /// A reliable message in one piece.
    SendReliable,
    /// An unreliable message in one piece.
    SendUnreliable { unreliable_sequence_number: u16 },
    /// One piece of a reliable message.
    SendFragment { fragment: FragmentInfo },
    /// A message outside the sequence of its channel.
    SendUnsequenced { unsequenced_group: u16 },
    /// The bandwidths of the sender have changed.
    BandwidthLimit { incoming_bandwidth: u32, outgoing_bandwidth: u32 },
    /// The receiver is to use these throttle parameters.
    ThrottleConfigure { interval: u32, acceleration: u32, deceleration: u32 },
    /// One piece of an unreliable message.
    SendUnreliableFragment { fragment: FragmentInfo },
}

/// One protocol command: header, typed fields and payload.
#[derive(Debug, Clone, PartialEq, Eq)]
pub struct Command {
    pub header: CommandHeader,
    pub body: CommandBody,
    /// The payload; empty for the commands that carry none.
    pub data: Vec<u8>,
}

/// The mathematical value of a [`Command`].
pub struct CommandView {
    pub header: CommandHeader,
    pub body: CommandBody,
    pub data: Seq<u8>,
}

/// Why a byte string is not a command.
#[derive(Debug, Clone, Copy, PartialEq, Eq)]
pub enum DecodeError {
    /// The bytes end before the command does.
    Truncated,
    /// The command number is none of the protocol's.
    UnknownCommand,
}

impl View for Command {
    type V = CommandView;

    open spec fn view(&self) -> CommandView {
        CommandView { header: self.header, body: self.body, data: self.data@ }
    }
}

impl CommandBody {
    /// The number that stands for this type of command on the wire.
    pub open spec fn spec_number(self) -> u8 {
        match self {
            CommandBody::Acknowledge { .. } => 1,
            CommandBody::Connect { .. } => 2,
            CommandBody::VerifyConnect { .. } => 3,
            CommandBody::Disconnect { .. } => 4,
            CommandBody::Ping => 5,
            CommandBody::SendReliable => 6,
            CommandBody::SendUnreliable { .. } => 7,
            CommandBody::SendFragment { .. } => 8,
            CommandBody::SendUnsequenced { .. } => 9,
            CommandBody::BandwidthLimit { .. } => 10,
            CommandBody::ThrottleConfigure { .. } => 11,
            CommandBody::SendUnreliableFragment { .. } => 12,
        }
    }

    /// Whether commands of this type carry a payload.
    pub open spec fn spec_carries_data(self) -> bool {
        self is SendReliable || self is SendUnreliable || self is SendFragment
            || self is SendUnsequenced || self is SendUnreliableFragment
    }

    /// The number that stands for this type of command on the wire.
    pub fn number(&self) -> (n: u8)
        ensures
            n == self.spec_number(),
            1 <= n <= 12,
    {
        match self {
            CommandBody::Acknowledge { .. } => 1,
            CommandBody::Connect { .. } => 2,
            CommandBody::VerifyConnect { .. } => 3,
            CommandBody::Disconnect { .. } => 4,
            CommandBody::Ping => 5,
            CommandBody::SendReliable => 6,
            CommandBody::SendUnreliable { .. } => 7,
            CommandBody::SendFragment { .. } => 8,
            CommandBody::SendUnsequenced { .. } => 9,
            CommandBody::BandwidthLimit { .. } => 10,
            CommandBody::ThrottleConfigure { .. } => 11,
            CommandBody::SendUnreliableFragment { .. } => 12,
        }
    }

    /// Whether commands of this type carry a payload.
    pub fn carries_data(&self) -> (r: bool)
        ensures
            r == self.spec_carries_data(),
    {
        match self {
            CommandBody::SendReliable => true,
            CommandBody::SendUnreliable { .. } => true,
            CommandBody::SendFragment { .. } => true,
            CommandBody::SendUnsequenced { .. } => true,
            CommandBody::SendUnreliableFragment { .. } => true,
            _ => false,
        }
    }
}

/// Length in bytes of a command of the given number without its payload,
/// the command header included; 0 for a number that is no command.
pub open spec fn spec_fixed_size(number: u8) -> int {
    if number == 1 {
        8
    } else if number == 2 {
        48
    } else if number == 3 {
        44
    } else if number == 4 {
        8
    } else if number == 5 {
        4
    } else if number == 6 {
        6
    } else if number == 7 {
        8
    } else if number == 8 {
        24
    } else if number == 9 {
        8
    } else if number == 10 {
        12
    } else if number == 11 {
        16
    } else if number == 12 {
        24
    } else {
        0
    }
}

/// Length in bytes of a command of the given number without its payload,
/// the command header included; 0 for a number that is no command.
pub fn fixed_size(number: u8) -> (n: usize)
    ensures
        n == spec_fixed_size(number),
{
    if number == 1 {
        8
    } else if number == 2 {
        48
    } else if number == 3 {
        44
    } else if number == 4 {
        8
    } else if number == 5 {
        4
    } else if number == 6 {
        6
    } else if number == 7 {
        8
    } else if number == 8 {
        24
    } else if number == 9 {
        8
    } else if number == 10 {
        12
    } else if number == 11 {
        16
    } else if number == 12 {
        24
    } else {
        0
    }
}

/// The first byte of a command: its number and its two flags.
pub open spec fn spec_command_byte(header: CommandHeader, body: CommandBody) -> u8 {
    (body.spec_number() + (if header.acknowledge { 0x80int } else { 0 })
        + (if header.unsequenced { 0x40int } else { 0 })) as u8
}

/// The forty bytes of the handshake parameters.
pub open spec fn handshake_bytes(h: Handshake) -> Seq<u8> {
    be16(h.outgoing_peer_id) + seq![h.incoming_session_id, h.outgoing_session_id] + be32(h.mtu)
        + be32(h.window_size) + be32(h.channel_count) + be32(h.incoming_bandwidth) + be32(
        h.outgoing_bandwidth,
    ) + be32(h.packet_throttle_interval) + be32(h.packet_throttle_acceleration) + be32(
        h.packet_throttle_deceleration,
    ) + be32(h.connect_id)
}

/// The twenty bytes of a fragment's fields, the payload length among them.
pub open spec fn fragment_bytes(f: FragmentInfo, data_length: u16) -> Seq<u8> {
    be16(f.start_sequence_number) + be16(data_length) + be32(f.fragment_count) + be32(
        f.fragment_number,
    ) + be32(f.total_length) + be32(f.fragment_offset)
}

/// The bytes between the command header and the payload.
pub open spec fn body_bytes(body: CommandBody, data_length: u16) -> Seq<u8> {
    match body {
        CommandBody::Acknowledge { received_reliable_sequence_number, received_sent_time } => be16(
            received_reliable_sequence_number,
        ) + be16(received_sent_time),
        CommandBody::Connect { handshake, data } => handshake_bytes(handshake) + be32(data),
        CommandBody::VerifyConnect { handshake } => handshake_bytes(handshake),
        CommandBody::Disconnect { data } => be32(data),
        CommandBody::Ping => Seq::empty(),
        CommandBody::SendReliable => be16(data_length),
        CommandBody::SendUnreliable { unreliable_sequence_number } => be16(
            unreliable_sequence_number,
        ) + be16(data_length),
        CommandBody::SendFragment { fragment } => fragment_bytes(fragment, data_length),
        CommandBody::SendUnsequenced { unsequenced_group } => be16(unsequenced_group) + be16(
            data_length,
        ),
        CommandBody::BandwidthLimit { incoming_bandwidth, outgoing_bandwidth } => be32(
            incoming_bandwidth,
        ) + be32(outgoing_bandwidth),
        CommandBody::ThrottleConfigure { interval, acceleration, deceleration } => be32(interval)
            + be32(acceleration) + be32(deceleration),
        CommandBody::SendUnreliableFragment { fragment } => fragment_bytes(fragment, data_length),
    }
}

impl CommandView {
    /// Whether the command can be written: a payload only where the type
    /// carries one, and no longer than a 16-bit length can say.
    pub open spec fn wf(self) -> bool {
        &&& self.data.len() <= 0xFFFF
        &&& !self.body.spec_carries_data() ==> self.data.len() == 0
    }

    /// The command as it stands on the wire: command byte, channel and
    /// sequence number, the fields of its type, and the payload.
    #[verifier::opaque]
    pub open spec fn bytes(self) -> Seq<u8> {
        seq![spec_command_byte(self.header, self.body), self.header.channel_id] + be16(
            self.header.reliable_sequence_number,
        ) + body_bytes(self.body, self.data.len() as u16) + self.data
    }

    /// Length in bytes of the command on the wire.
    pub open spec fn size(self) -> int {
        spec_fixed_size(self.body.spec_number()) + self.data.len()
    }
}

/// A command is as long on the wire as its type and payload say, and never
/// shorter than its header.
pub proof fn lemma_bytes_len(c: CommandView)
    ensures
        c.bytes().len() == c.size(),
        c.size() >= 4,
{
    reveal(CommandView::bytes);
}

/// The command header that stands at `s[at]`.
pub open spec fn header_at(s: Seq<u8>, at: int) -> CommandHeader {
    CommandHeader {
        acknowledge: s[at] / 128 == 1,
        unsequenced: (s[at] / 64) % 2 == 1,
        channel_id: s[at + 1],
        reliable_sequence_number: be16_at(s, at + 2),
    }
}

/// The handshake parameters that stand at `s[at]`.
pub open spec fn handshake_at(s: Seq<u8>, at: int) -> Handshake {
    Handshake {
        outgoing_peer_id: be16_at(s, at),
        incoming_session_id: s[at + 2],
        outgoing_session_id: s[at + 3],
        mtu: be32_at(s, at + 4),
        window_size: be32_at(s, at + 8),
        channel_count: be32_at(s, at + 12),
        incoming_bandwidth: be32_at(s, at + 16),
        outgoing_bandwidth: be32_at(s, at + 20),
        packet_throttle_interval: be32_at(s, at + 24),
        packet_throttle_acceleration: be32_at(s, at + 28),
        packet_throttle_deceleration: be32_at(s, at + 32),
        connect_id: be32_at(s, at + 36),
    }
}

/// The fragment fields that stand at `s[at]`.
pub open spec fn fragment_at(s: Seq<u8>, at: int) -> FragmentInfo {
    FragmentInfo {
        start_sequence_number: be16_at(s, at),
        fragment_count: be32_at(s, at + 4),
        fragment_number: be32_at(s, at + 8),
        total_length: be32_at(s, at + 12),
        fragment_offset: be32_at(s, at + 16),
    }
}

/// The typed fields of a command of the given number whose fields start at
/// `s[at]`, behind the command header.
pub open spec fn body_at(number: u8, s: Seq<u8>, at: int) -> CommandBody {
    if number == 1 {
        CommandBody::Acknowledge {
            received_reliable_sequence_number: be16_at(s, at),
            received_sent_time: be16_at(s, at + 2),
        }
    } else if number == 2 {
        CommandBody::Connect { handshake: handshake_at(s, at), data: be32_at(s, at + 40) }
    } else if number == 3 {
        CommandBody::VerifyConnect { handshake: handshake_at(s, at) }
    } else if number == 4 {
        CommandBody::Disconnect { data: be32_at(s, at) }
    } else if number == 6 {
        CommandBody::SendReliable
    } else if number == 7 {
        CommandBody::SendUnreliable { unreliable_sequence_number: be16_at(s, at) }
    } else if number == 8 {
        CommandBody::SendFragment { fragment: fragment_at(s, at) }
    } else if number == 9 {
        CommandBody::SendUnsequenced { unsequenced_group: be16_at(s, at) }
    } else if number == 10 {
        CommandBody::BandwidthLimit {
            incoming_bandwidth: be32_at(s, at),
            outgoing_bandwidth: be32_at(s, at + 4),
        }
    } else if number == 11 {
        CommandBody::ThrottleConfigure {
            interval: be32_at(s, at),
            acceleration: be32_at(s, at + 4),
            deceleration: be32_at(s, at + 8),
        }
    } else if number == 12 {
        CommandBody::SendUnreliableFragment { fragment: fragment_at(s, at) }
    } else {
        CommandBody::Ping
    }
}

/// The payload length that a command of the given number states, its fields
/// starting at `s[at]`; 0 for a command that carries no payload.
pub open spec fn data_length_at(number: u8, s: Seq<u8>, at: int) -> int {
    if number == 6 {
        be16_at(s, at) as int
    } else if number == 7 || number == 8 || number == 9 || number == 12 {
        be16_at(s, at + 2) as int
    } else {
        0
    }
}

/// The command that starts at `s[at]` together with the position behind it,
/// or the reason why there is none.
#[verifier::opaque]
pub open spec fn parse_command(s: Seq<u8>, at: int) -> Result<(CommandView, int), DecodeError> {
    if at + 4 > s.len() {
        Err(DecodeError::Truncated)
    } else {
        let number = s[at] % 16;
        if number == 0 || number > 12 {
            Err(DecodeError::UnknownCommand)
        } else if at + spec_fixed_size(number) > s.len() {
            Err(DecodeError::Truncated)
        } else {
            let start = at + spec_fixed_size(number);
            let end = start + data_length_at(number, s, at + 4);
            if end > s.len() {
                Err(DecodeError::Truncated)
            } else {
                Ok(
                    (
                        CommandView {
                            header: header_at(s, at),
                            body: body_at(number, s, at + 4),
                            data: s.subrange(start, end),
                        },
                        end,
                    ),
                )
            }
        }
    }
}

impl Command {
    /// Whether the command can be written.
    pub fn is_well_formed(&self) -> (r: bool)
        ensures
            r == self@.wf(),
    {
        self.data.len() <= 0xFFFF && (self.body.carries_data() || self.data.len() == 0)
    }

    /// Appends the command to `out` as it stands on the wire.
    pub fn encode(&self, out: &mut Vec<u8>)
        requires
            self@.wf(),
        ensures
            final(out)@ == old(out)@ + self@.bytes(),
    {
        let ghost before = out@;
        let mut first: u8 = self.body.number();
        if self.header.acknowledge {
            first = first + 0x80;
        }
        if self.header.unsequenced {
            first = first + 0x40;
        }
        out.push(first);
        out.push(self.header.channel_id);
        push_be16(out, self.header.reliable_sequence_number);
        let length: u16 = self.data.len() as u16;
        match self.body {
            CommandBody::Acknowledge { received_reliable_sequence_number, received_sent_time } => {
                push_be16(out, received_reliable_sequence_number);
                push_be16(out, received_sent_time);
            },
            CommandBody::Connect { handshake, data } => {
                encode_handshake(&handshake, out);
                push_be32(out, data);
            },
            CommandBody::VerifyConnect { handshake } => {
                encode_handshake(&handshake, out);
            },
            CommandBody::Disconnect { data } => {
                push_be32(out, data);
            },
            CommandBody::Ping => {},
            CommandBody::SendReliable => {
                push_be16(out, length);
            },
            CommandBody::SendUnreliable { unreliable_sequence_number } => {
                push_be16(out, unreliable_sequence_number);
                push_be16(out, length);
            },
            CommandBody::SendFragment { fragment } => {
                encode_fragment(&fragment, length, out);
            },
            CommandBody::SendUnsequenced { unsequenced_group } => {
                push_be16(out, unsequenced_group);
                push_be16(out, length);
            },
            CommandBody::BandwidthLimit { incoming_bandwidth, outgoing_bandwidth } => {
                push_be32(out, incoming_bandwidth);
                push_be32(out, outgoing_bandwidth);
            },
            CommandBody::ThrottleConfigure { interval, acceleration, deceleration } => {
                push_be32(out, interval);
                push_be32(out, acceleration);
                push_be32(out, deceleration);
            },
            CommandBody::SendUnreliableFragment { fragment } => {
                encode_fragment(&fragment, length, out);
            },
        }
        push_all(out, self.data.as_slice());
        proof {
            reveal(CommandView::bytes);
        }
        assert(out@ =~= before + self@.bytes());
    }

    /// Length in bytes of the command on the wire.
    pub fn size(&self) -> (n: usize)
        requires
            self@.wf(),
        ensures
            n == self@.size(),
    {
        fixed_size(self.body.number()) + self.data.len()
    }

    /// Reads the command that starts at `bytes[at]`. Returns it with the
    /// position behind it, or says why the bytes are no command.
    pub fn decode(bytes: &[u8], at: usize) -> (r: Result<(Command, usize), DecodeError>)
        ensures
            match r {
                Ok((command, end)) => parse_command(bytes@, at as int) == Ok::<
                    (CommandView, int),
                    DecodeError,
                >((command@, end as int)),
                Err(e) => parse_command(bytes@, at as int) == Err::<
                    (CommandView, int),
                    DecodeError,
                >(e),
            },
    {
        proof {
            reveal(parse_command);
        }
        let len = bytes.len();
        if len < 4 || at > len - 4 {
            return Err(DecodeError::Truncated);
        }
        let number: u8 = bytes[at] % 16;
        if number == 0 || number > 12 {
            return Err(DecodeError::UnknownCommand);
        }
        let fixed = fixed_size(number);
        if fixed > len - at {
            return Err(DecodeError::Truncated);
        }
        let header = CommandHeader {
            acknowledge: bytes[at] / 128 == 1,
            unsequenced: (bytes[at] / 64) % 2 == 1,
            channel_id: bytes[at + 1],
            reliable_sequence_number: read_be16(bytes, at + 2),
        };
        let fields = at + 4;
        let mut length: usize = 0;
        let body = if number == 1 {
            CommandBody::Acknowledge {
                received_reliable_sequence_number: read_be16(bytes, fields),
                received_sent_time: read_be16(bytes, fields + 2),
            }
        } else if number == 2 {
            CommandBody::Connect {
                handshake: decode_handshake(bytes, fields),
                data: read_be32(bytes, fields + 40),
            }
        } else if number == 3 {
            CommandBody::VerifyConnect { handshake: decode_handshake(bytes, fields) }
        } else if number == 4 {
            CommandBody::Disconnect { data: read_be32(bytes, fields) }
        } else if number == 6 {
            length = read_be16(bytes, fields) as usize;
            CommandBody::SendReliable
        } else if number == 7 {
            length = read_be16(bytes, fields + 2) as usize;
            CommandBody::SendUnreliable { unreliable_sequence_number: read_be16(bytes, fields) }
        } else if number == 8 {
            length = read_be16(bytes, fields + 2) as usize;
            CommandBody::SendFragment { fragment: decode_fragment(bytes, fields) }
        } else if number == 9 {
            length = read_be16(bytes, fields + 2) as usize;
            CommandBody::SendUnsequenced { unsequenced_group: read_be16(bytes, fields) }
        } else if number == 10 {
            CommandBody::BandwidthLimit {
                incoming_bandwidth: read_be32(bytes, fields),
                outgoing_bandwidth: read_be32(bytes, fields + 4),
            }
        } else if number == 11 {
            CommandBody::ThrottleConfigure {
                interval: read_be32(bytes, fields),
                acceleration: read_be32(bytes, fields + 4),
                deceleration: read_be32(bytes, fields + 8),
            }
        } else if number == 12 {
            length = read_be16(bytes, fields + 2) as usize;
            CommandBody::SendUnreliableFragment { fragment: decode_fragment(bytes, fields) }
        } else {
            CommandBody::Ping
        };
        let start = at + fixed;
        if length > len - start {
            return Err(DecodeError::Truncated);
        }
        let end = start + length;
        let data = copy_range(bytes, start, end);
        Ok((Command { header, body, data }, end))
    }
}

/// Appends the handshake parameters to `out`.
fn encode_handshake(h: &Handshake, out: &mut Vec<u8>)
    ensures
        final(out)@ == old(out)@ + handshake_bytes(*h),
{
    let ghost before = out@;
    push_be16(out, h.outgoing_peer_id);
    out.push(h.incoming_session_id);
    out.push(h.outgoing_session_id);
    let ghost ids = be16(h.outgoing_peer_id) + seq![h.incoming_session_id, h.outgoing_session_id];
    assert(out@ =~= before + ids);
    push_be32(out, h.mtu);
    push_be32(out, h.window_size);
    push_be32(out, h.channel_count);
    let ghost sizes = ids + be32(h.mtu) + be32(h.window_size) + be32(h.channel_count);
    assert(out@ =~= before + sizes);
    push_be32(out, h.incoming_bandwidth);
    push_be32(out, h.outgoing_bandwidth);
    push_be32(out, h.packet_throttle_interval);
    let ghost rates = sizes + be32(h.incoming_bandwidth) + be32(h.outgoing_bandwidth) + be32(
        h.packet_throttle_interval,
    );
    assert(out@ =~= before + rates);
    push_be32(out, h.packet_throttle_acceleration);
    push_be32(out, h.packet_throttle_deceleration);
    push_be32(out, h.connect_id);
    assert(out@ =~= before + (rates + be32(h.packet_throttle_acceleration) + be32(
        h.packet_throttle_deceleration,
    ) + be32(h.connect_id)));
}

/// Appends a fragment's fields and the payload length to `out`.
fn encode_fragment(f: &FragmentInfo, data_length: u16, out: &mut Vec<u8>)
    ensures
        final(out)@ == old(out)@ + fragment_bytes(*f, data_length),
{
    let ghost before = out@;
    push_be16(out, f.start_sequence_number);
    push_be16(out, data_length);
    push_be32(out, f.fragment_count);
    let ghost head = be16(f.start_sequence_number) + be16(data_length) + be32(f.fragment_count);
    assert(out@ =~= before + head);
    push_be32(out, f.fragment_number);
    push_be32(out, f.total_length);
    push_be32(out, f.fragment_offset);
    assert(out@ =~= before + (head + be32(f.fragment_number) + be32(f.total_length) + be32(
        f.fragment_offset,
    )));
}

/// Reads the handshake parameters at `bytes[at]`.
fn decode_handshake(bytes: &[u8], at: usize) -> (h: Handshake)
    requires
        at + 40 <= bytes.len(),
    ensures
        h == handshake_at(bytes@, at as int),
{
    Handshake {
        outgoing_peer_id: read_be16(bytes, at),
        incoming_session_id: bytes[at + 2],
        outgoing_session_id: bytes[at + 3],
        mtu: read_be32(bytes, at + 4),
        window_size: read_be32(bytes, at + 8),
        channel_count: read_be32(bytes, at + 12),
        incoming_bandwidth: read_be32(bytes, at + 16),
        outgoing_bandwidth: read_be32(bytes, at + 20),
        packet_throttle_interval: read_be32(bytes, at + 24),
        packet_throttle_acceleration: read_be32(bytes, at + 28),
        packet_throttle_deceleration: read_be32(bytes, at + 32),
        connect_id: read_be32(bytes, at + 36),
    }
}

/// Reads the fragment fields at `bytes[at]`.
fn decode_fragment(bytes: &[u8], at: usize) -> (f: FragmentInfo)
    requires
        at + 20 <= bytes.len(),
    ensures
        f == fragment_at(bytes@, at as int),
{
    FragmentInfo {
        start_sequence_number: read_be16(bytes, at),
        fragment_count: read_be32(bytes, at + 4),
        fragment_number: read_be32(bytes, at + 8),
        total_length: read_be32(bytes, at + 12),
        fragment_offset: read_be32(bytes, at + 16),
    }
}

/// A 16-bit field that was written at `s[at]` is read back from there.
proof fn lemma_field16(s: Seq<u8>, at: int, x: u16)
    requires
        0 <= at,
        at + 2 <= s.len(),
        s[at] == be16(x)[0],
        s[at + 1] == be16(x)[1],
    ensures
        be16_at(s, at) == x,
{
    lemma_join16_of_bytes(x);
}

/// A 32-bit field that was written at `s[at]` is read back from there.
proof fn lemma_field32(s: Seq<u8>, at: int, x: u32)
    requires
        0 <= at,
        at + 4 <= s.len(),
        s[at] == be32(x)[0],
        s[at + 1] == be32(x)[1],
        s[at + 2] == be32(x)[2],
        s[at + 3] == be32(x)[3],
    ensures
        be32_at(s, at) == x,
{
    lemma_join32_of_bytes(x);
}

/// Handshake parameters that were written at `s[at]` are read back from there.
proof fn lemma_handshake_round_trip(s: Seq<u8>, at: int, h: Handshake)
    requires
        0 <= at,
        at + 40 <= s.len(),
        s.subrange(at, at + 40) == handshake_bytes(h),
    ensures
        handshake_at(s, at) == h,
{
    let b = handshake_bytes(h);
    assert forall|k: int| 0 <= k < 40 implies s[at + k] == #[trigger] b[k] by {
        assert(s.subrange(at, at + 40)[k] == s[at + k]);
    }
    let ids = be16(h.outgoing_peer_id) + seq![h.incoming_session_id, h.outgoing_session_id];
    let sizes = ids + be32(h.mtu) + be32(h.window_size) + be32(h.channel_count);
    let rates = sizes + be32(h.incoming_bandwidth) + be32(h.outgoing_bandwidth) + be32(
        h.packet_throttle_interval,
    );
    assert(b == rates + be32(h.packet_throttle_acceleration) + be32(
        h.packet_throttle_deceleration,
    ) + be32(h.connect_id));
    assert(b[0] == be16(h.outgoing_peer_id)[0] && b[1] == be16(h.outgoing_peer_id)[1]);
    lemma_field16(s, at, h.outgoing_peer_id);
    assert(b[2] == h.incoming_session_id && b[3] == h.outgoing_session_id);
    assert(b[4] == be32(h.mtu)[0] && b[5] == be32(h.mtu)[1] && b[6] == be32(h.mtu)[2] && b[7]
        == be32(h.mtu)[3]);
    lemma_field32(s, at + 4, h.mtu);
    assert(b[8] == be32(h.window_size)[0] && b[9] == be32(h.window_size)[1] && b[10] == be32(
        h.window_size,
    )[2] && b[11] == be32(h.window_size)[3]);
    lemma_field32(s, at + 8, h.window_size);
    assert(b[12] == be32(h.channel_count)[0] && b[13] == be32(h.channel_count)[1] && b[14]
        == be32(h.channel_count)[2] && b[15] == be32(h.channel_count)[3]);
    lemma_field32(s, at + 12, h.channel_count);
    assert(b[16] == be32(h.incoming_bandwidth)[0] && b[17] == be32(h.incoming_bandwidth)[1]
        && b[18] == be32(h.incoming_bandwidth)[2] && b[19] == be32(h.incoming_bandwidth)[3]);
    lemma_field32(s, at + 16, h.incoming_bandwidth);
    assert(b[20] == be32(h.outgoing_bandwidth)[0] && b[21] == be32(h.outgoing_bandwidth)[1]
        && b[22] == be32(h.outgoing_bandwidth)[2] && b[23] == be32(h.outgoing_bandwidth)[3]);
    lemma_field32(s, at + 20, h.outgoing_bandwidth);
    assert(b[24] == be32(h.packet_throttle_interval)[0] && b[25] == be32(
        h.packet_throttle_interval,
    )[1] && b[26] == be32(h.packet_throttle_interval)[2] && b[27] == be32(
        h.packet_throttle_interval,
    )[3]);
    lemma_field32(s, at + 24, h.packet_throttle_interval);
    assert(b[28] == be32(h.packet_throttle_acceleration)[0] && b[29] == be32(
        h.packet_throttle_acceleration,
    )[1] && b[30] == be32(h.packet_throttle_acceleration)[2] && b[31] == be32(
        h.packet_throttle_acceleration,
    )[3]);
    lemma_field32(s, at + 28, h.packet_throttle_acceleration);
    assert(b[32] == be32(h.packet_throttle_deceleration)[0] && b[33] == be32(
        h.packet_throttle_deceleration,
    )[1] && b[34] == be32(h.packet_throttle_deceleration)[2] && b[35] == be32(
        h.packet_throttle_deceleration,
    )[3]);
    lemma_field32(s, at + 32, h.packet_throttle_deceleration);
    assert(b[36] == be32(h.connect_id)[0] && b[37] == be32(h.connect_id)[1] && b[38] == be32(
        h.connect_id,
    )[2] && b[39] == be32(h.connect_id)[3]);
    lemma_field32(s, at + 36, h.connect_id);
}

/// Fragment fields that were written at `s[at]` are read back from there.
proof fn lemma_fragment_round_trip(s: Seq<u8>, at: int, f: FragmentInfo, data_length: u16)
    requires
        0 <= at,
        at + 20 <= s.len(),
        s.subrange(at, at + 20) == fragment_bytes(f, data_length),
    ensures
        fragment_at(s, at) == f,
        be16_at(s, at + 2) == data_length,
{
    let b = fragment_bytes(f, data_length);
    assert forall|k: int| 0 <= k < 20 implies s[at + k] == #[trigger] b[k] by {
        assert(s.subrange(at, at + 20)[k] == s[at + k]);
    }
    assert(b[0] == be16(f.start_sequence_number)[0] && b[1] == be16(f.start_sequence_number)[1]);
    lemma_field16(s, at, f.start_sequence_number);
    assert(b[2] == be16(data_length)[0] && b[3] == be16(data_length)[1]);
    lemma_field16(s, at + 2, data_length);
    assert(b[4] == be32(f.fragment_count)[0] && b[5] == be32(f.fragment_count)[1] && b[6]
        == be32(f.fragment_count)[2] && b[7] == be32(f.fragment_count)[3]);
    lemma_field32(s, at + 4, f.fragment_count);
    assert(b[8] == be32(f.fragment_number)[0] && b[9] == be32(f.fragment_number)[1] && b[10]
        == be32(f.fragment_number)[2] && b[11] == be32(f.fragment_number)[3]);
    lemma_field32(s, at + 8, f.fragment_number);
    assert(b[12] == be32(f.total_length)[0] && b[13] == be32(f.total_length)[1] && b[14]
        == be32(f.total_length)[2] && b[15] == be32(f.total_length)[3]);
    lemma_field32(s, at + 12, f.total_length);
    assert(b[16] == be32(f.fragment_offset)[0] && b[17] == be32(f.fragment_offset)[1] && b[18]
        == be32(f.fragment_offset)[2] && b[19] == be32(f.fragment_offset)[3]);
    lemma_field32(s, at + 16, f.fragment_offset);
}

/// The typed fields that were written at `s[at]` are read back from there,
/// and so is the payload length.
proof fn lemma_body_round_trip(s: Seq<u8>, at: int, body: CommandBody, data_length: u16)
    requires
        0 <= at,
        at + body_bytes(body, data_length).len() <= s.len(),
        s.subrange(at, at + body_bytes(body, data_length).len()) == body_bytes(body, data_length),
        !body.spec_carries_data() ==> data_length == 0,
    ensures
        body_at(body.spec_number(), s, at) == body,
        data_length_at(body.spec_number(), s, at) == data_length,
        body_bytes(body, data_length).len() + 4 == spec_fixed_size(body.spec_number()),
{
    let b = body_bytes(body, data_length);
    let n = b.len() as int;
    assert forall|k: int| 0 <= k < n implies s[at + k] == #[trigger] b[k] by {
        assert(s.subrange(at, at + n)[k] == s[at + k]);
    }
    match body {
        CommandBody::Acknowledge { received_reliable_sequence_number, received_sent_time } => {
            assert(b[0] == be16(received_reliable_sequence_number)[0] && b[1] == be16(
                received_reliable_sequence_number,
            )[1]);
            lemma_field16(s, at, received_reliable_sequence_number);
            assert(b[2] == be16(received_sent_time)[0] && b[3] == be16(received_sent_time)[1]);
            lemma_field16(s, at + 2, received_sent_time);
        },
        CommandBody::Connect { handshake, data } => {
            assert(s.subrange(at, at + 40) =~= handshake_bytes(handshake)) by {
                assert forall|k: int| 0 <= k < 40 implies s.subrange(at, at + 40)[k]
                    == handshake_bytes(handshake)[k] by {
                    assert(b[k] == handshake_bytes(handshake)[k]);
                }
            }
            lemma_handshake_round_trip(s, at, handshake);
            assert(b[40] == be32(data)[0] && b[41] == be32(data)[1] && b[42] == be32(data)[2]
                && b[43] == be32(data)[3]);
            lemma_field32(s, at + 40, data);
        },
        CommandBody::VerifyConnect { handshake } => {
            lemma_handshake_round_trip(s, at, handshake);
        },
        CommandBody::Disconnect { data } => {
            assert(b[0] == be32(data)[0] && b[1] == be32(data)[1] && b[2] == be32(data)[2] && b[3]
                == be32(data)[3]);
            lemma_field32(s, at, data);
        },
        CommandBody::Ping => {},
        CommandBody::SendReliable => {
            assert(b[0] == be16(data_length)[0] && b[1] == be16(data_length)[1]);
            lemma_field16(s, at, data_length);
        },
        CommandBody::SendUnreliable { unreliable_sequence_number } => {
            assert(b[0] == be16(unreliable_sequence_number)[0] && b[1] == be16(
                unreliable_sequence_number,
            )[1]);
            lemma_field16(s, at, unreliable_sequence_number);
            assert(b[2] == be16(data_length)[0] && b[3] == be16(data_length)[1]);
            lemma_field16(s, at + 2, data_length);
        },
        CommandBody::SendFragment { fragment } => {
            lemma_fragment_round_trip(s, at, fragment, data_length);
        },
        CommandBody::SendUnsequenced { unsequenced_group } => {
            assert(b[0] == be16(unsequenced_group)[0] && b[1] == be16(unsequenced_group)[1]);
            lemma_field16(s, at, unsequenced_group);
            assert(b[2] == be16(data_length)[0] && b[3] == be16(data_length)[1]);
            lemma_field16(s, at + 2, data_length);
        },
        CommandBody::BandwidthLimit { incoming_bandwidth, outgoing_bandwidth } => {
            assert(b[0] == be32(incoming_bandwidth)[0] && b[1] == be32(incoming_bandwidth)[1]
                && b[2] == be32(incoming_bandwidth)[2] && b[3] == be32(incoming_bandwidth)[3]);
            lemma_field32(s, at, incoming_bandwidth);
            assert(b[4] == be32(outgoing_bandwidth)[0] && b[5] == be32(outgoing_bandwidth)[1]
                && b[6] == be32(outgoing_bandwidth)[2] && b[7] == be32(outgoing_bandwidth)[3]);
            lemma_field32(s, at + 4, outgoing_bandwidth);
        },
        CommandBody::ThrottleConfigure { interval, acceleration, deceleration } => {
            assert(b[0] == be32(interval)[0] && b[1] == be32(interval)[1] && b[2] == be32(
                interval,
            )[2] && b[3] == be32(interval)[3]);
            lemma_field32(s, at, interval);
            assert(b[4] == be32(acceleration)[0] && b[5] == be32(acceleration)[1] && b[6]
                == be32(acceleration)[2] && b[7] == be32(acceleration)[3]);
            lemma_field32(s, at + 4, acceleration);
            assert(b[8] == be32(deceleration)[0] && b[9] == be32(deceleration)[1] && b[10]
                == be32(deceleration)[2] && b[11] == be32(deceleration)[3]);
            lemma_field32(s, at + 8, deceleration);
        },
        CommandBody::SendUnreliableFragment { fragment } => {
            lemma_fragment_round_trip(s, at, fragment, data_length);
        },
    }
}

/// The three parts of a string that stands between a prefix and a suffix are
/// found at their places in the whole.
proof fn lemma_parts_in_place(
    prefix: Seq<u8>,
    head: Seq<u8>,
    fields: Seq<u8>,
    data: Seq<u8>,
    suffix: Seq<u8>,
)
    ensures
        ({
            let s = prefix + (head + fields + data) + suffix;
            let at = prefix.len() as int;
            &&& s.len() == prefix.len() + head.len() + fields.len() + data.len() + suffix.len()
            &&& s.subrange(at, at + head.len()) == head
            &&& s.subrange(at + head.len(), at + head.len() + fields.len()) == fields
            &&& s.subrange(
                at + head.len() + fields.len(),
                at + head.len() + fields.len() + data.len(),
            ) == data
        }),
{
    let s = prefix + (head + fields + data) + suffix;
    let at = prefix.len() as int;
    assert(s.subrange(at, at + head.len()) =~= head);
    assert(s.subrange(at + head.len(), at + head.len() + fields.len()) =~= fields);
    assert(s.subrange(
        at + head.len() + fields.len(),
        at + head.len() + fields.len() + data.len(),
    ) =~= data);
}

/// The four bytes of a command header.
pub open spec fn header_bytes(header: CommandHeader, body: CommandBody) -> Seq<u8> {
    seq![spec_command_byte(header, body), header.channel_id] + be16(
        header.reliable_sequence_number,
    )
}

/// A command header that was written at `s[at]` is read back from there, and
/// so is the command number.
proof fn lemma_header_round_trip(s: Seq<u8>, at: int, header: CommandHeader, body: CommandBody)
    requires
        0 <= at,
        at + 4 <= s.len(),
        s.subrange(at, at + 4) == header_bytes(header, body),
    ensures
        header_at(s, at) == header,
        s[at] % 16 == body.spec_number(),
{
    let b = header_bytes(header, body);
    assert forall|k: int| 0 <= k < 4 implies s[at + k] == #[trigger] b[k] by {
        assert(s.subrange(at, at + 4)[k] == s[at + k]);
    }
    assert(b[0] == spec_command_byte(header, body));
    assert(b[1] == header.channel_id);
    assert(b[2] == be16(header.reliable_sequence_number)[0]);
    assert(b[3] == be16(header.reliable_sequence_number)[1]);
    lemma_field16(s, at + 2, header.reliable_sequence_number);
}

/// Decoding inverts encoding: wherever the bytes of a well-formed command
/// stand in a byte string, parsing at that place yields the command again
/// and ends right behind it.
pub proof fn lemma_parse_inverts_bytes(c: CommandView, prefix: Seq<u8>, suffix: Seq<u8>)
    requires
        c.wf(),
    ensures
        parse_command(prefix + c.bytes() + suffix, prefix.len() as int) == Ok::<
            (CommandView, int),
            DecodeError,
        >((c, prefix.len() + c.size())),
{
    reveal(CommandView::bytes);
    reveal(parse_command);
    let s = prefix + c.bytes() + suffix;
    let at = prefix.len() as int;
    let data_length = c.data.len() as u16;
    let head = header_bytes(c.header, c.body);
    let fields = body_bytes(c.body, data_length);
    assert(c.bytes() == head + fields + c.data);
    lemma_parts_in_place(prefix, head, fields, c.data, suffix);
    lemma_header_round_trip(s, at, c.header, c.body);
    lemma_body_round_trip(s, at + 4, c.body, data_length);
}

/// Writing the handshake parameters read at `s[at]` gives the bytes read.
proof fn lemma_handshake_bytes_of_parse(s: Seq<u8>, at: int)
    requires
        0 <= at,
        at + 40 <= s.len(),
    ensures
        handshake_bytes(handshake_at(s, at)) == s.subrange(at, at + 40),
{
    let h = handshake_at(s, at);
    lemma_be16_at_round_trip(s, at);
    lemma_be32_at_round_trip(s, at + 4);
    lemma_be32_at_round_trip(s, at + 8);
    lemma_be32_at_round_trip(s, at + 12);
    lemma_be32_at_round_trip(s, at + 16);
    lemma_be32_at_round_trip(s, at + 20);
    lemma_be32_at_round_trip(s, at + 24);
    lemma_be32_at_round_trip(s, at + 28);
    lemma_be32_at_round_trip(s, at + 32);
    lemma_be32_at_round_trip(s, at + 36);
    let ids = s.subrange(at, at + 2) + seq![s[at + 2], s[at + 3]];
    assert(ids =~= s.subrange(at, at + 4));
    let sizes = ids + s.subrange(at + 4, at + 8) + s.subrange(at + 8, at + 12) + s.subrange(
        at + 12,
        at + 16,
    );
    assert(sizes =~= s.subrange(at, at + 16));
    let rates = sizes + s.subrange(at + 16, at + 20) + s.subrange(at + 20, at + 24) + s.subrange(
        at + 24,
        at + 28,
    );
    assert(rates =~= s.subrange(at, at + 28));
    assert(rates + s.subrange(at + 28, at + 32) + s.subrange(at + 32, at + 36) + s.subrange(
        at + 36,
        at + 40,
    ) =~= s.subrange(at, at + 40));
}

/// Writing the fragment fields and payload length read at `s[at]` gives the
/// bytes read.
proof fn lemma_fragment_bytes_of_parse(s: Seq<u8>, at: int)
    requires
        0 <= at,
        at + 20 <= s.len(),
    ensures
        fragment_bytes(fragment_at(s, at), be16_at(s, at + 2)) == s.subrange(at, at + 20),
{
    lemma_be16_at_round_trip(s, at);
    lemma_be16_at_round_trip(s, at + 2);
    lemma_be32_at_round_trip(s, at + 4);
    lemma_be32_at_round_trip(s, at + 8);
    lemma_be32_at_round_trip(s, at + 12);
    lemma_be32_at_round_trip(s, at + 16);
    let head = s.subrange(at, at + 2) + s.subrange(at + 2, at + 4) + s.subrange(at + 4, at + 8);
    assert(head =~= s.subrange(at, at + 8));
    assert(head + s.subrange(at + 8, at + 12) + s.subrange(at + 12, at + 16) + s.subrange(
        at + 16,
        at + 20,
    ) =~= s.subrange(at, at + 20));
}

/// Writing the typed fields read at `s[at]` gives the bytes read.
proof fn lemma_body_bytes_of_parse(number: u8, s: Seq<u8>, at: int)
    requires
        0 <= at,
        1 <= number <= 12,
        at + spec_fixed_size(number) - 4 <= s.len(),
    ensures
        body_at(number, s, at).spec_number() == number,
        body_at(number, s, at).spec_carries_data() || data_length_at(number, s, at) == 0,
        body_bytes(body_at(number, s, at), data_length_at(number, s, at) as u16) == s.subrange(
            at,
            at + spec_fixed_size(number) - 4,
        ),
{
    let end = at + spec_fixed_size(number) - 4;
    let body = body_at(number, s, at);
    let written = body_bytes(body, data_length_at(number, s, at) as u16);
    if number == 1 || number == 7 || number == 9 {
        lemma_be16_at_round_trip(s, at);
        lemma_be16_at_round_trip(s, at + 2);
        assert(s.subrange(at, at + 2) + s.subrange(at + 2, at + 4) =~= s.subrange(at, end));
    } else if number == 2 {
        lemma_handshake_bytes_of_parse(s, at);
        lemma_be32_at_round_trip(s, at + 40);
        assert(s.subrange(at, at + 40) + s.subrange(at + 40, at + 44) =~= s.subrange(at, end));
    } else if number == 3 {
        lemma_handshake_bytes_of_parse(s, at);
    } else if number == 4 {
        lemma_be32_at_round_trip(s, at);
    } else if number == 5 {
        assert(written =~= s.subrange(at, end));
    } else if number == 6 {
        lemma_be16_at_round_trip(s, at);
    } else if number == 8 || number == 12 {
        lemma_fragment_bytes_of_parse(s, at);
    } else if number == 10 {
        lemma_be32_at_round_trip(s, at);
        lemma_be32_at_round_trip(s, at + 4);
        assert(s.subrange(at, at + 4) + s.subrange(at + 4, at + 8) =~= s.subrange(at, end));
    } else {
        lemma_be32_at_round_trip(s, at);
        lemma_be32_at_round_trip(s, at + 4);
        lemma_be32_at_round_trip(s, at + 8);
        assert(s.subrange(at, at + 4) + s.subrange(at + 4, at + 8) + s.subrange(at + 8, at + 12)
            =~= s.subrange(at, end));
    }
}

/// A byte whose two unused bits are clear is the command byte of the
/// header and the number read from it.
proof fn lemma_command_byte_of_parse(byte: u8, body: CommandBody)
    requires
        (byte / 16) % 4 == 0,
        body.spec_number() == byte % 16,
    ensures
        spec_command_byte(
            CommandHeader {
                acknowledge: byte / 128 == 1,
                unsequenced: (byte / 64) % 2 == 1,
                channel_id: 0,
                reliable_sequence_number: 0,
            },
            body,
        ) == byte,
{
}

/// Three adjoining pieces of a string make up the piece that spans them.
proof fn lemma_adjoining_pieces(s: Seq<u8>, a: int, b: int, c: int, d: int)
    requires
        0 <= a <= b <= c <= d <= s.len(),
    ensures
        s.subrange(a, b) + s.subrange(b, c) + s.subrange(c, d) == s.subrange(a, d),
{
    assert(s.subrange(a, b) + s.subrange(b, c) + s.subrange(c, d) =~= s.subrange(a, d));
}

/// Encoding inverts decoding: where a byte string parses as a command and
/// the two unused bits of the command byte are clear, the command is well
/// formed and its encoding is the bytes that were parsed.
pub proof fn lemma_bytes_inverts_parse(s: Seq<u8>, at: int)
    requires
        0 <= at,
        parse_command(s, at) is Ok,
        (s[at] / 16) % 4 == 0,
    ensures
        ({
            let (c, end) = parse_command(s, at)->Ok_0;
            &&& c.wf()
            &&& at + c.size() == end
            &&& end <= s.len()
            &&& c.bytes() == s.subrange(at, end)
        }),
{
    reveal(CommandView::bytes);
    reveal(parse_command);
    let (c, end) = parse_command(s, at)->Ok_0;
    let number = s[at] % 16;
    let start = at + spec_fixed_size(number);
    lemma_body_bytes_of_parse(number, s, at + 4);
    let fields = body_bytes(c.body, c.data.len() as u16);
    assert(fields == s.subrange(at + 4, start));
    let head = header_bytes(c.header, c.body);
    assert(head == s.subrange(at, at + 4)) by {
        lemma_be16_at_round_trip(s, at + 2);
        lemma_command_byte_of_parse(s[at], c.body);
        assert(seq![s[at], s[at + 1]] + s.subrange(at + 2, at + 4) =~= s.subrange(at, at + 4));
    }
    assert(c.data == s.subrange(start, end));
    lemma_adjoining_pieces(s, at, at + 4, start, end);
}

} // verus!
