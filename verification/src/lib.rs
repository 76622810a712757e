//! A reliable, ordered, multi-channel message transport layered over an
//! unreliable datagram substrate.
//!
//! The crate holds the protocol engine only. It performs no I/O: datagrams
//! enter and leave as byte vectors, and time is a millisecond counter that
//! the caller hands in.
//!
//! - [`wire`], [`datagram`] and [`checksum`] are the codec: commands,
//!   datagrams and the integrity checksum, each with the proof that decoding
//!   inverts encoding.
//! - [`channel`] orders the messages of a channel; [`fragment`] cuts large
//!   messages and puts them together again; [`unsequenced`] suppresses
//!   duplicates outside the sequence.
//! - [`rtt`], [`throttle`] and [`timeout`] are the controllers: the
//!   round-trip-time estimator, the throttle of unreliable traffic and the
//!   retransmission policy.
//! - [`peer`] is the state machine of one session with its queues;
//!   [`host`] holds the peer slots and runs the phases of a service tick;
//!   [`service`] is the tick itself, as a state machine that tells its
//!   driver what to do with the endpoint.
//!
//! Every function states what it returns and changes in terms of the
//! mathematical values of its arguments. What holds across functions is
//! stated as a proof function: `lemma_reliable_delivery_in_order` in
//! [`channel::ordering`], for instance, says that a channel hands up the
//! messages of a stream in order and once, whatever the network does.
//! [`peer::stream`] and [`peer::delivery`] put sender and receiver
//! together: what one application queues is what the other receives.

pub mod bytes;
pub mod channel;
pub mod checksum;
pub mod consts;
pub mod datagram;
pub mod fragment;
pub mod host;
pub mod packet;
pub mod peer;
pub mod rtt;
pub mod service;
pub mod throttle;
pub mod time;
pub mod timeout;
pub mod unsequenced;
pub mod wire;
