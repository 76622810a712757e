//! Protocol and tuning constants.

use vstd::prelude::*;

verus! {

/// Smallest MTU a peer may negotiate.
pub const PROTOCOL_MINIMUM_MTU: u32 = 512;

/// Largest MTU a peer may negotiate.
pub const PROTOCOL_MAXIMUM_MTU: u32 = 4096;

/// Largest number of commands packed into one datagram.
pub const PROTOCOL_MAXIMUM_PACKET_COMMANDS: usize = 32;

/// Smallest reliable window size, in bytes.
pub const PROTOCOL_MINIMUM_WINDOW_SIZE: u32 = 4096;

/// Largest reliable window size, in bytes.
pub const PROTOCOL_MAXIMUM_WINDOW_SIZE: u32 = 65536;

/// Smallest number of channels of a connection.
pub const PROTOCOL_MINIMUM_CHANNEL_COUNT: usize = 1;

/// Largest number of channels of a connection.
pub const PROTOCOL_MAXIMUM_CHANNEL_COUNT: usize = 255;

/// Largest peer identifier that fits the twelve bits of the wire header.
pub const PROTOCOL_MAXIMUM_PEER_ID: u16 = 0xFFF;

/// Largest number of fragments one message may be split into.
pub const PROTOCOL_MAXIMUM_FRAGMENT_COUNT: u32 = 1048576;

/// Largest payload, in bytes, that `send` accepts.
pub const PROTOCOL_MAXIMUM_PACKET_SIZE: usize = 16777215;

/// Interval, in milliseconds, at which a host redistributes bandwidth.
pub const HOST_BANDWIDTH_THROTTLE_INTERVAL: u32 = 1000;

/// MTU a host starts with.
pub const HOST_DEFAULT_MTU: u32 = 1392;

/// Round-trip time, in milliseconds, assumed before the first measurement.
pub const PEER_DEFAULT_ROUND_TRIP_TIME: u32 = 500;

/// Throttle a peer starts with.
pub const PEER_DEFAULT_PACKET_THROTTLE: u32 = 32;

/// The throttle value at which every unreliable packet is sent.
pub const PEER_PACKET_THROTTLE_SCALE: u32 = 32;

/// Default amount by which the throttle rises.
pub const PEER_PACKET_THROTTLE_ACCELERATION: u32 = 2;

/// Default amount by which the throttle falls.
pub const PEER_PACKET_THROTTLE_DECELERATION: u32 = 2;

/// Default length, in milliseconds, of a throttle measurement interval.
pub const PEER_PACKET_THROTTLE_INTERVAL: u32 = 5000;

/// The value of `packet_loss` that stands for a loss of 100%.
pub const PEER_PACKET_LOSS_SCALE: u32 = 65536;

/// Length, in milliseconds, of a packet-loss measurement interval.
pub const PEER_PACKET_LOSS_INTERVAL: u32 = 10000;

/// Unit in which the window size follows the throttle.
pub const PEER_WINDOW_SIZE_SCALE: u32 = 65536;

/// Default number of doublings of the retransmission timeout.
pub const PEER_TIMEOUT_LIMIT: u32 = 32;

/// Default time, in milliseconds, before a peer at the limit times out.
pub const PEER_TIMEOUT_MINIMUM: u32 = 5000;

/// Default time, in milliseconds, after which a peer times out regardless.
pub const PEER_TIMEOUT_MAXIMUM: u32 = 30000;

/// Default interval, in milliseconds, between keepalive pings.
pub const PEER_PING_INTERVAL: u32 = 500;

/// Number of unsequenced groups that the duplicate bitmap covers.
pub const PEER_UNSEQUENCED_WINDOW_SIZE: u16 = 1024;

/// Number of windows of unsequenced groups that may still arrive.
pub const PEER_FREE_UNSEQUENCED_WINDOWS: u16 = 32;

/// Number of windows the 16-bit reliable sequence space is cut into.
pub const PEER_RELIABLE_WINDOWS: u16 = 16;

/// Number of sequence numbers in one reliable window.
pub const PEER_RELIABLE_WINDOW_SIZE: u16 = 0x1000;

/// Number of reliable windows ahead of the current one that may be in use.
pub const PEER_FREE_RELIABLE_WINDOWS: u16 = 8;

} // verus!

verus! {

/// Largest number of commands that wait in the outgoing queues of a peer.
pub const PEER_QUEUE_LIMIT: usize = 0xFFFF;

/// Bytes of a datagram that a fragment's payload cannot use: the protocol
/// header with its sent time, the checksum and the fields of the fragment
/// command.
pub const FRAGMENT_OVERHEAD: u32 = 32;

} // verus!
