//! Connecting, disconnecting and resetting a peer.

use vstd::prelude::*;
use std::collections::VecDeque;
use crate::channel::{Channel, ChannelView};
use crate::consts::{
    PROTOCOL_MAXIMUM_CHANNEL_COUNT, PROTOCOL_MAXIMUM_MTU, PROTOCOL_MAXIMUM_PEER_ID,
    PROTOCOL_MAXIMUM_WINDOW_SIZE, PROTOCOL_MINIMUM_CHANNEL_COUNT, PROTOCOL_MINIMUM_MTU,
};
use crate::datagram::{Datagram, DatagramView, ProtocolHeader};
use crate::packet::Address;
use crate::peer::{
    channel_views, lemma_all_wf_push, lemma_command_views_push, lemma_outbound_views_push,
    Acknowledgement, Counters, Outbound, OutboundView, Peer, PeerState, PeerView, Session,
};
use crate::rtt::RoundTripTime;
use crate::throttle::{spec_min, Throttle};
use crate::timeout::TimeoutPolicy;
use crate::unsequenced::UnsequencedWindow;
use crate::wire::{Command, CommandBody, CommandHeader, CommandView, Handshake};

verus! {

/// The channel that commands outside the channels are written to.
pub const CONTROL_CHANNEL: u8 = 0xFF;

/// The peer was not in a state in which application traffic flows.
#[derive(Debug, Clone, Copy, PartialEq, Eq)]
pub struct NotConnected;

/// What a host hands to a peer that connects.
#[derive(Debug, Clone, Copy, PartialEq, Eq)]
pub struct HostSettings {
    /// Largest datagram, in bytes, that the host sends.
    pub mtu: u32,
    /// Downstream bandwidth of the host in bytes per second; 0 for no limit.
    pub incoming_bandwidth: u32,
    /// Upstream bandwidth of the host in bytes per second; 0 for no limit.
    pub outgoing_bandwidth: u32,
    /// Largest number of channels that the host allows a session.
    pub channel_limit: usize,
}

/// The number itself, held between the two bounds.
pub open spec fn spec_clamp(value: int, low: int, high: int) -> int {
    if value < low {
        low
    } else if value > high {
        high
    } else {
        value
    }
}

/// A command outside the channels, without payload.
pub open spec fn spec_control(acknowledge: bool, sequence: u16, body: CommandBody) -> CommandView {
    CommandView {
        header: CommandHeader {
            acknowledge,
            unsequenced: !acknowledge,
            channel_id: CONTROL_CHANNEL,
            reliable_sequence_number: sequence,
        },
        body,
        data: Seq::empty(),
    }
}

/// The session number that the datagrams to a peer carry: that of the
/// session once the peer's slot at the remote host is known, 0 before.
pub open spec fn spec_header_session(session: Session) -> u8 {
    if session.outgoing_peer_id < PROTOCOL_MAXIMUM_PEER_ID {
        session.outgoing_session_id % 4
    } else {
        0
    }
}

/// The peer id that the datagrams to a peer carry: the peer's slot at the
/// remote host, `0xFFF` while it is unknown.
pub open spec fn spec_header_peer(session: Session) -> u16 {
    if session.outgoing_peer_id < PROTOCOL_MAXIMUM_PEER_ID {
        session.outgoing_peer_id
    } else {
        PROTOCOL_MAXIMUM_PEER_ID
    }
}

/// The datagram that tells the remote host of an immediate disconnect: one
/// unsequenced disconnect command, not to be acknowledged.
pub open spec fn spec_parting(session: Session, data: u32) -> DatagramView {
    DatagramView {
        header: ProtocolHeader {
            peer_id: spec_header_peer(session),
            session_id: spec_header_session(session),
            sent_time: None,
        },
        checksum: None,
        commands: seq![spec_control(false, 0, CommandBody::Disconnect { data })],
    }
}

/// The window size that a host with the given upstream bandwidth starts a
/// session with.
pub open spec fn spec_initial_window(outgoing_bandwidth: u32) -> u32 {
    if outgoing_bandwidth == 0 {
        PROTOCOL_MAXIMUM_WINDOW_SIZE
    } else {
        spec_clamp(
            (outgoing_bandwidth / crate::consts::PEER_WINDOW_SIZE_SCALE)
                * crate::consts::PROTOCOL_MINIMUM_WINDOW_SIZE,
            crate::consts::PROTOCOL_MINIMUM_WINDOW_SIZE as int,
            PROTOCOL_MAXIMUM_WINDOW_SIZE as int,
        ) as u32
    }
}

impl HostSettings {
    /// The number of channels that a session asked to have `wanted` gets.
    pub open spec fn spec_channels(self, wanted: int) -> int {
        spec_clamp(
            spec_min(wanted, self.channel_limit as int),
            PROTOCOL_MINIMUM_CHANNEL_COUNT as int,
            PROTOCOL_MAXIMUM_CHANNEL_COUNT as int,
        )
    }

    /// The MTU that the host sends with, held within the protocol's limits.
    pub open spec fn spec_mtu(self) -> u32 {
        spec_clamp(self.mtu as int, PROTOCOL_MINIMUM_MTU as int, PROTOCOL_MAXIMUM_MTU as int) as u32
    }
}

impl PeerView {
    /// The peer with its session cleared away: as before it was ever
    /// connected, but for its address, the session numbers and the nonce of
    /// its last session, and the datagrams that leave whatever becomes of
    /// the session.
    pub open spec fn cleared(self) -> PeerView {
        PeerView {
            address: self.address,
            outbox: self.outbox,
            session: Session {
                incoming_session_id: self.session.incoming_session_id,
                outgoing_session_id: self.session.outgoing_session_id,
                connect_id: self.session.connect_id,
                ..Session::spec_new()
            },
            ..PeerView::spec_new(self.id)
        }
    }

    /// The nonce of the session that a peer starts when the generator of
    /// its host gives out `drawn`: the number drawn, or the next one if the
    /// last session of the peer had that nonce.
    pub open spec fn fresh_nonce(self, drawn: u32) -> u32 {
        if drawn == self.session.connect_id {
            vstd::wrapping::u32_specs::wrapping_add(drawn, 1)
        } else {
            drawn
        }
    }

    /// The peer after its queues were emptied: no command, acknowledgement,
    /// event or channel is left.
    pub open spec fn after_queues_reset(self) -> PeerView {
        PeerView {
            channels: Seq::empty(),
            outgoing: Seq::empty(),
            staged: Seq::empty(),
            sent: Seq::empty(),
            acknowledgements: Seq::empty(),
            dispatched: Seq::empty(),
            counters: Counters { reliable_data_in_transit: 0, ..self.counters },
            ..self
        }
    }

    /// The peer after a command outside the channels joined the outgoing
    /// ones, to be acknowledged, under the next control sequence number.
    pub open spec fn with_control(self, body: CommandBody) -> PeerView {
        let sequence = crate::channel::spec_advance(self.control_sequence_number, 1);
        PeerView {
            control_sequence_number: sequence,
            outgoing: self.outgoing.push(spec_control(true, sequence, body)),
            ..self
        }
    }

    /// The peer after the application asked for a ping.
    pub open spec fn after_ping(self) -> PeerView {
        if self.state.spec_in_connected_family() {
            self.with_control(CommandBody::Ping)
        } else {
            self
        }
    }

    /// The peer as it starts to disconnect: its queues are emptied, a
    /// disconnect command is the one command to go out, and the state is
    /// `Disconnecting`.
    pub open spec fn disconnecting(self, data: u32) -> PeerView {
        PeerView {
            state: PeerState::Disconnecting,
            session: Session { event_data: data, ..self.session },
            ..self.after_queues_reset().with_control(CommandBody::Disconnect { data })
        }
    }

    /// The peer after the application asked to disconnect.
    pub open spec fn after_disconnect(self, data: u32) -> PeerView {
        if self.state.spec_in_connected_family() {
            self.disconnecting(data)
        } else {
            self
        }
    }

    /// The peer after the application asked to disconnect once everything
    /// queued has been sent.
    pub open spec fn after_disconnect_later(self, data: u32) -> PeerView {
        if !self.state.spec_in_connected_family() {
            self
        } else if self.idle() {
            self.disconnecting(data)
        } else {
            PeerView {
                state: PeerState::DisconnectLater,
                session: Session { event_data: data, ..self.session },
                ..self
            }
        }
    }

    /// Whether an immediate disconnect tells the remote host: the peer has
    /// a session, or is setting one up, and its address is known.
    pub open spec fn parts_with_notice(self) -> bool {
        self.state != PeerState::Disconnected && self.state != PeerState::Zombie
            && self.address is Some
    }

    /// The peer after the application disconnected it at once.
    pub open spec fn after_disconnect_now(self, data: u32) -> PeerView {
        if self.parts_with_notice() {
            PeerView {
                outbox: self.outbox.push(
                    OutboundView {
                        address: self.address->0,
                        bytes: spec_parting(self.session, data).bytes(),
                    },
                ),
                ..self.cleared()
            }
        } else {
            self.cleared()
        }
    }

    /// The peer after the application reset it: as after an immediate
    /// disconnect that carries no data. The peer is disconnected and its
    /// session cleared away; where it had a session, or was setting one up,
    /// one unsequenced disconnect command leaves for the remote host, which
    /// is neither acknowledged nor sent again.
    pub open spec fn after_reset(self) -> PeerView {
        self.after_disconnect_now(0)
    }

    /// The peer after the application set the throttle parameters: they are
    /// set here, and a peer in the connected family tells the remote host.
    pub open spec fn after_set_throttle(self, interval: u32, acceleration: u32, deceleration: u32) -> PeerView {
        let set = PeerView {
            throttle: Throttle { interval, acceleration, deceleration, ..self.throttle },
            ..self
        };
        if self.state.spec_in_connected_family() {
            set.with_control(CommandBody::ThrottleConfigure { interval, acceleration, deceleration })
        } else {
            set
        }
    }

    /// The handshake parameters that a peer sends.
    pub open spec fn handshake(self) -> Handshake {
        Handshake {
            outgoing_peer_id: (self.id.0 % 0x1000) as u16,
            incoming_session_id: self.session.incoming_session_id,
            outgoing_session_id: self.session.outgoing_session_id,
            mtu: self.session.mtu,
            window_size: self.session.window_size,
            channel_count: self.channels.len() as u32,
            incoming_bandwidth: self.session.incoming_bandwidth,
            outgoing_bandwidth: self.session.outgoing_bandwidth,
            packet_throttle_interval: self.throttle.interval,
            packet_throttle_acceleration: self.throttle.acceleration,
            packet_throttle_deceleration: self.throttle.deceleration,
            connect_id: self.session.connect_id,
        }
    }

    /// The peer after the application asked to connect it to `address`,
    /// the generator of its host having given out `drawn`: a disconnected
    /// peer takes the address, a fresh nonce and the host's settings, gets
    /// its channels, becomes `Connecting` and queues the connect command;
    /// any other peer stays as it is. The event that tells of the
    /// connection will carry `data`.
    pub open spec fn after_connect(
        self,
        address: Address,
        channel_count: usize,
        data: u32,
        drawn: u32,
        host: HostSettings,
    ) -> PeerView {
        if self.state != PeerState::Disconnected {
            self
        } else {
            let fresh = self.cleared();
            let ready = PeerView {
                state: PeerState::Connecting,
                address: Some(address),
                session: Session {
                    connect_id: self.fresh_nonce(drawn),
                    event_data: data,
                    mtu: host.spec_mtu(),
                    window_size: spec_initial_window(host.outgoing_bandwidth),
                    incoming_bandwidth: host.incoming_bandwidth,
                    outgoing_bandwidth: host.outgoing_bandwidth,
                    ..fresh.session
                },
                channels: Seq::new(
                    host.spec_channels(channel_count as int) as nat,
                    |i: int| ChannelView::spec_new(),
                ),
                ..fresh
            };
            ready.with_control(CommandBody::Connect { handshake: ready.handshake(), data })
        }
    }
}

/// A sequence of fresh channels.
pub(crate) fn fresh_channels(count: usize) -> (channels: Vec<Channel>)
    ensures
        channel_views(channels@) == Seq::new(count as nat, |i: int| ChannelView::spec_new()),
        forall|i: int| 0 <= i < channels@.len() ==> (#[trigger] channels@[i]).wf(),
        channels@.len() == count,
{
    let mut channels: Vec<Channel> = Vec::new();
    let mut i: usize = 0;
    assert(channel_views(channels@) =~= Seq::new(0nat, |i: int| ChannelView::spec_new()));
    while i < count
        invariant
            i <= count,
            channels@.len() == i,
            channel_views(channels@) == Seq::new(i as nat, |i: int| ChannelView::spec_new()),
            forall|j: int| 0 <= j < channels@.len() ==> (#[trigger] channels@[j]).wf(),
        decreases count - i,
    {
        let ghost before = channels@;
        channels.push(Channel::new());
        i = i + 1;
        assert(channel_views(channels@) =~= Seq::new(i as nat, |i: int| ChannelView::spec_new())) by {
            assert forall|j: int| 0 <= j < i implies channel_views(channels@)[j]
                == ChannelView::spec_new() by {
                if j < i - 1 {
                    assert(channels@[j] == before[j]);
                    assert(channel_views(before)[j] == ChannelView::spec_new());
                }
            }
        }
        assert forall|j: int| 0 <= j < channels@.len() implies (#[trigger] channels@[j]).wf() by {
            if j < i - 1 {
                assert(channels@[j] == before[j]);
            }
        }
    }
    channels
}

impl HostSettings {
    /// The number of channels that a session asked to have `wanted` gets.
    pub fn channels(&self, wanted: usize) -> (n: usize)
        ensures
            n == self.spec_channels(wanted as int),
            PROTOCOL_MINIMUM_CHANNEL_COUNT <= n <= PROTOCOL_MAXIMUM_CHANNEL_COUNT,
    {
        let lower = if wanted <= self.channel_limit {
            wanted
        } else {
            self.channel_limit
        };
        if lower < PROTOCOL_MINIMUM_CHANNEL_COUNT {
            PROTOCOL_MINIMUM_CHANNEL_COUNT
        } else if lower > PROTOCOL_MAXIMUM_CHANNEL_COUNT {
            PROTOCOL_MAXIMUM_CHANNEL_COUNT
        } else {
            lower
        }
    }

    /// The MTU that the host sends with, held within the protocol's limits.
    pub fn mtu(&self) -> (n: u32)
        ensures
            n == self.spec_mtu(),
            PROTOCOL_MINIMUM_MTU <= n <= PROTOCOL_MAXIMUM_MTU,
    {
        if self.mtu < PROTOCOL_MINIMUM_MTU {
            PROTOCOL_MINIMUM_MTU
        } else if self.mtu > PROTOCOL_MAXIMUM_MTU {
            PROTOCOL_MAXIMUM_MTU
        } else {
            self.mtu
        }
    }
}

/// The window size that a host with the given upstream bandwidth starts a
/// session with.
pub fn initial_window(outgoing_bandwidth: u32) -> (window: u32)
    ensures
        window == spec_initial_window(outgoing_bandwidth),
        crate::consts::PROTOCOL_MINIMUM_WINDOW_SIZE <= window <= PROTOCOL_MAXIMUM_WINDOW_SIZE,
{
    if outgoing_bandwidth == 0 {
        PROTOCOL_MAXIMUM_WINDOW_SIZE
    } else {
        let units = outgoing_bandwidth / crate::consts::PEER_WINDOW_SIZE_SCALE;
        if units < 1 {
            crate::consts::PROTOCOL_MINIMUM_WINDOW_SIZE
        } else if units >= 16 {
            PROTOCOL_MAXIMUM_WINDOW_SIZE
        } else {
            units * crate::consts::PROTOCOL_MINIMUM_WINDOW_SIZE
        }
    }
}

impl Peer {
    /// Forcefully disconnects a peer.
    ///
    /// The peer is disconnected at once and no event is generated. Where
    /// the peer had a session, or was setting one up, a disconnect command
    /// that carries no data leaves for the foreign host with the next
    /// datagrams of the peer. It is sent once and not acknowledged, so the
    /// foreign host may miss it, and will then time out on its connection
    /// to the local host.
    pub fn reset(&mut self)
        ensures
            final(self).wf(),
            final(self)@ == old(self)@.after_reset(),
            old(self)@.state.may_become(final(self)@.state),
            old(self)@.keeps(final(self)@),
    {
        self.disconnect_now(0);
    }

    /// Clears the session of the peer away: the peer is disconnected, and
    /// nothing is left of its queues, channels and counters.
    pub(crate) fn clear(&mut self)
        ensures
            final(self).wf(),
            final(self)@ == old(self)@.cleared(),
            old(self)@.state.may_become(final(self)@.state),
            old(self)@.keeps(final(self)@),
    {
        let incoming_session_id = self.session.incoming_session_id;
        let outgoing_session_id = self.session.outgoing_session_id;
        let connect_id = self.session.connect_id;
        self.state = PeerState::Disconnected;
        self.session = Session::new();
        self.session.incoming_session_id = incoming_session_id;
        self.session.outgoing_session_id = outgoing_session_id;
        self.session.connect_id = connect_id;
        self.counters = Counters::new();
        self.throttle = Throttle::new();
        self.rtt = RoundTripTime::new();
        self.timeouts = TimeoutPolicy::new();
        self.control_sequence_number = 0;
        self.unsequenced_group = 0;
        self.unsequenced = UnsequencedWindow::new();
        self.channels = Vec::new();
        self.outgoing = VecDeque::new();
        self.staged = VecDeque::new();
        self.sent = Vec::new();
        self.acknowledgements = VecDeque::new();
        self.dispatched = VecDeque::new();
        proof {
            assert(self@.channels =~= Seq::empty());
            assert(self@.outgoing =~= Seq::empty());
            assert(self@.staged =~= Seq::empty());
            assert(self@.sent =~= Seq::empty());
            assert(self@.dispatched =~= Seq::empty());
            assert(self@.acknowledgements =~= Seq::empty());
        }
    }

    /// Empties the queues of the peer.
    pub(crate) fn reset_queues(&mut self)
        requires
            old(self).wf(),
        ensures
            final(self)@ == old(self)@.after_queues_reset(),
            final(self).wf(),
    {
        self.channels = Vec::new();
        self.outgoing = VecDeque::new();
        self.staged = VecDeque::new();
        self.sent = Vec::new();
        self.acknowledgements = VecDeque::new();
        self.dispatched = VecDeque::new();
        self.counters.reliable_data_in_transit = 0;
        proof {
            assert(self@.channels =~= Seq::empty());
            assert(self@.outgoing =~= Seq::empty());
            assert(self@.staged =~= Seq::empty());
            assert(self@.sent =~= Seq::empty());
            assert(self@.dispatched =~= Seq::empty());
            assert(self@.acknowledgements =~= Seq::empty());
        }
    }

    /// Queues a command outside the channels, to be acknowledged.
    pub(crate) fn queue_control(&mut self, body: CommandBody)
        requires
            old(self).wf(),
            old(self)@.live(),
            !body.spec_carries_data(),
        ensures
            final(self).wf(),
            final(self)@ == old(self)@.with_control(body),
    {
        self.control_sequence_number = self.control_sequence_number.wrapping_add(1);
        let command = Command {
            header: CommandHeader {
                acknowledge: true,
                unsequenced: false,
                channel_id: CONTROL_CHANNEL,
                reliable_sequence_number: self.control_sequence_number,
            },
            body,
            data: Vec::new(),
        };
        proof {
            lemma_command_views_push(self.outgoing@, command);
            lemma_all_wf_push(old(self)@.outgoing, command@);
            assert(command@.data =~= Seq::empty());
        }
        self.outgoing.push_back(command);
    }

    /// Sends a ping request to a peer.
    ///
    /// Ping requests factor into the mean round trip time as acquired by
    /// [`Peer::round_trip_time`]. Connected peers are pinged at regular
    /// intervals by themselves; this function may be called to ensure more
    /// frequent ping requests.
    ///
    /// The ping interval can be changed with [`Peer::set_ping_interval`].
    ///
    /// # Errors
    ///
    /// [`NotConnected`] where the peer is not in the connected family of
    /// states; nothing changes then.
    pub fn ping(&mut self) -> (r: Result<(), NotConnected>)
        requires
            old(self).wf(),
        ensures
            final(self).wf(),
            r is Ok <==> old(self)@.state.spec_in_connected_family(),
            final(self)@ == old(self)@.after_ping(),
            old(self)@.state.may_become(final(self)@.state),
            old(self)@.keeps(final(self)@),
    {
        if !self.state.in_connected_family() {
            return Err(NotConnected);
        }
        self.queue_control(CommandBody::Ping);
        Ok(())
    }

    /// Empties the queues and queues the disconnect command.
    pub(crate) fn begin_disconnect(&mut self, data: u32)
        requires
            old(self).wf(),
            old(self)@.live(),
        ensures
            final(self).wf(),
            final(self)@ == old(self)@.disconnecting(data),
    {
        self.reset_queues();
        self.queue_control(CommandBody::Disconnect { data });
        self.state = PeerState::Disconnecting;
        self.session.event_data = data;
    }

    /// Request a disconnection from a peer.
    ///
    /// A disconnect event will be generated once the disconnection is
    /// complete. Commands that were queued and not yet acknowledged are
    /// dropped.
    ///
    /// # Errors
    ///
    /// [`NotConnected`] where the peer is not in the connected family of
    /// states; nothing changes then.
    pub fn disconnect(&mut self, data: u32) -> (r: Result<(), NotConnected>)
        requires
            old(self).wf(),
        ensures
            final(self).wf(),
            r is Ok <==> old(self)@.state.spec_in_connected_family(),
            final(self)@ == old(self)@.after_disconnect(data),
            old(self)@.state.may_become(final(self)@.state),
            old(self)@.keeps(final(self)@),
    {
        if !self.state.in_connected_family() {
            return Err(NotConnected);
        }
        self.begin_disconnect(data);
        Ok(())
    }

    /// Request a disconnection from a peer, but only after all queued
    /// outgoing packets are sent.
    ///
    /// A disconnect event will be generated once the disconnection is
    /// complete.
    ///
    /// # Errors
    ///
    /// [`NotConnected`] where the peer is not in the connected family of
    /// states; nothing changes then.
    pub fn disconnect_later(&mut self, data: u32) -> (r: Result<(), NotConnected>)
        requires
            old(self).wf(),
        ensures
            final(self).wf(),
            r is Ok <==> old(self)@.state.spec_in_connected_family(),
            final(self)@ == old(self)@.after_disconnect_later(data),
            old(self)@.state.may_become(final(self)@.state),
            old(self)@.keeps(final(self)@),
    {
        if !self.state.in_connected_family() {
            return Err(NotConnected);
        }
        if self.outgoing.len() == 0 && self.staged.len() == 0 && self.sent.len() == 0 {
            self.begin_disconnect(data);
        } else {
            self.state = PeerState::DisconnectLater;
            self.session.event_data = data;
        }
        Ok(())
    }

    /// The peer id and the session number that the datagrams to the peer
    /// carry.
    pub(crate) fn header_ids(&self) -> (ids: (u16, u8))
        ensures
            ids.0 == spec_header_peer(self@.session),
            ids.1 == spec_header_session(self@.session),
            ids.0 <= 0xFFF,
            ids.1 <= 3,
    {
        if self.session.outgoing_peer_id < PROTOCOL_MAXIMUM_PEER_ID {
            (self.session.outgoing_peer_id, self.session.outgoing_session_id % 4)
        } else {
            (PROTOCOL_MAXIMUM_PEER_ID, 0)
        }
    }

    /// Force an immediate disconnection from a peer.
    ///
    /// No disconnect event will be generated. The foreign peer is not
    /// guaranteed to receive the disconnect notification, which leaves with
    /// the next datagrams of the peer, and the peer is reset immediately
    /// upon return from this function.
    pub fn disconnect_now(&mut self, data: u32)
        ensures
            final(self).wf(),
            final(self)@ == old(self)@.after_disconnect_now(data),
            old(self)@.state.may_become(final(self)@.state),
            old(self)@.keeps(final(self)@),
    {
        let notice = match self.address {
            Some(address) => {
                if self.state != PeerState::Disconnected && self.state != PeerState::Zombie {
                    let (peer_id, session_id) = self.header_ids();
                    let command = Command {
                        header: CommandHeader {
                            acknowledge: false,
                            unsequenced: true,
                            channel_id: CONTROL_CHANNEL,
                            reliable_sequence_number: 0,
                        },
                        body: CommandBody::Disconnect { data },
                        data: Vec::new(),
                    };
                    let mut commands: Vec<Command> = Vec::new();
                    commands.push(command);
                    let datagram = Datagram {
                        header: ProtocolHeader { peer_id, session_id, sent_time: None },
                        checksum: None,
                        commands,
                    };
                    proof {
                        assert(command@.data =~= Seq::empty());
                        assert(datagram@.commands =~= seq![
                            spec_control(false, 0, CommandBody::Disconnect { data }),
                        ]);
                        assert(datagram@ == spec_parting(self@.session, data));
                    }
                    Some(Outbound { address, bytes: datagram.encode() })
                } else {
                    None
                }
            },
            None => None,
        };
        self.clear();
        match notice {
            Some(outbound) => {
                proof {
                    lemma_outbound_views_push(self.outbox@, outbound);
                }
                self.outbox.push_back(outbound);
            },
            None => {},
        }
    }

    /// Configure the peer's throttle parameters.
    ///
    /// Unreliable packets are dropped in response to the varying conditions
    /// of the connection to the peer. The throttle represents a probability
    /// that an unreliable packet should not be dropped and thus sent to the
    /// peer. The lowest round trip time from the sending of a reliable
    /// packet to the receipt of its acknowledgement is measured over an
    /// amount of time specified by the interval parameter in milliseconds.
    /// If it is less than the mean round trip time, the throttle probability
    /// is increased by the acceleration; if it exceeds the mean by more than
    /// the variance, the throttle probability is decreased by the
    /// deceleration. Both are a ratio to the throttle scale. At the scale no
    /// unreliable packet is dropped; at 0 all are.
    ///
    /// A peer in the connected family of states tells the remote host of
    /// the new parameters.
    pub fn set_throttle(&mut self, interval: u32, acceleration: u32, deceleration: u32)
        requires
            old(self).wf(),
        ensures
            final(self).wf(),
            final(self)@ == old(self)@.after_set_throttle(interval, acceleration, deceleration),
            old(self)@.state.may_become(final(self)@.state),
            old(self)@.keeps(final(self)@),
    {
        self.throttle.configure(interval, acceleration, deceleration);
        if self.state.in_connected_family() {
            self.queue_control(
                CommandBody::ThrottleConfigure { interval, acceleration, deceleration },
            );
        }
    }

    /// Starts to connect a disconnected peer to the host at `address`.
    /// `drawn` is a number from the generator of the host; the nonce of the
    /// session is that number, or the next one if the last session of the
    /// peer had the same. Returns whether the peer started to connect: a
    /// peer that is not disconnected stays as it is.
    pub fn connect(
        &mut self,
        address: Address,
        channel_count: usize,
        data: u32,
        drawn: u32,
        host: &HostSettings,
    ) -> (started: bool)
        requires
            old(self).wf(),
        ensures
            final(self).wf(),
            started == (old(self)@.state == PeerState::Disconnected),
            final(self)@ == old(self)@.after_connect(address, channel_count, data, drawn, *host),
            old(self)@.state.may_become(final(self)@.state),
            started ==> final(self)@.session.connect_id != old(self)@.session.connect_id,
    {
        if self.state != PeerState::Disconnected {
            return false;
        }
        let connect_id = if drawn == self.session.connect_id {
            drawn.wrapping_add(1)
        } else {
            drawn
        };
        self.clear();
        self.state = PeerState::Connecting;
        self.address = Some(address);
        self.session.connect_id = connect_id;
        self.session.event_data = data;
        self.session.mtu = host.mtu();
        self.session.window_size = initial_window(host.outgoing_bandwidth);
        self.session.incoming_bandwidth = host.incoming_bandwidth;
        self.session.outgoing_bandwidth = host.outgoing_bandwidth;
        self.channels = fresh_channels(host.channels(channel_count));
        let handshake = self.make_handshake();
        self.queue_control(CommandBody::Connect { handshake, data });
        true
    }

    /// The handshake parameters that the peer sends.
    pub(crate) fn make_handshake(&self) -> (h: Handshake)
        requires
            self.wf(),
        ensures
            h == self@.handshake(),
    {
        Handshake {
            outgoing_peer_id: (self.id.0 % 0x1000) as u16,
            incoming_session_id: self.session.incoming_session_id,
            outgoing_session_id: self.session.outgoing_session_id,
            mtu: self.session.mtu,
            window_size: self.session.window_size,
            channel_count: self.channels.len() as u32,
            incoming_bandwidth: self.session.incoming_bandwidth,
            outgoing_bandwidth: self.session.outgoing_bandwidth,
            packet_throttle_interval: self.throttle.interval,
            packet_throttle_acceleration: self.throttle.acceleration,
            packet_throttle_deceleration: self.throttle.deceleration,
            connect_id: self.session.connect_id,
        }
    }
}

/// The session number that follows `wanted` and differs from `other`: the
/// next of the four numbers, or the one after it.
pub open spec fn spec_next_session(wanted: u8, other: u8) -> u8 {
    let next = ((wanted + 1) % 4) as u8;
    if next == other {
        ((next + 1) % 4) as u8
    } else {
        next
    }
}

/// The session number that follows `wanted` and differs from `other`.
pub fn next_session(wanted: u8, other: u8) -> (n: u8)
    ensures
        n == spec_next_session(wanted, other),
        n <= 3,
        n != other,
{
    let next: u8 = ((wanted as u16 + 1) % 4) as u8;
    if next == other {
        (next + 1) % 4
    } else {
        next
    }
}

impl PeerView {
    /// The handshake parameters with which a peer answers a connect: its
    /// slot, the session numbers as the remote host is to use them, what
    /// the session has been given, and the bandwidths of its host.
    pub open spec fn reply_handshake(self, host: HostSettings) -> Handshake {
        Handshake {
            incoming_session_id: self.session.outgoing_session_id,
            outgoing_session_id: self.session.incoming_session_id,
            incoming_bandwidth: host.incoming_bandwidth,
            outgoing_bandwidth: host.outgoing_bandwidth,
            ..self.handshake()
        }
    }

    /// The peer after a connect from `address` was accepted for it. A peer
    /// that is not disconnected stays as it is. A disconnected one takes
    /// the address and what the remote host asked for, as far as its own
    /// host allows it, gets new session numbers, acknowledges the connect
    /// and queues its answer.
    pub open spec fn after_accept(
        self,
        address: Address,
        header: CommandHeader,
        handshake: Handshake,
        data: u32,
        sent_time: Option<u16>,
        host: HostSettings,
    ) -> PeerView {
        if self.state != PeerState::Disconnected {
            self
        } else {
            let fresh = self.cleared();
            let offered = PeerView {
                session: Session {
                    mtu: host.spec_mtu(),
                    window_size: spec_initial_window(host.outgoing_bandwidth),
                    ..fresh.session
                },
                ..fresh
            };
            let ready = PeerView {
                state: PeerState::AcknowledgingConnect,
                address: Some(address),
                session: Session {
                    connect_id: handshake.connect_id,
                    event_data: data,
                    outgoing_session_id: spec_next_session(
                        if handshake.incoming_session_id == 0xFF {
                            self.session.outgoing_session_id
                        } else {
                            handshake.incoming_session_id
                        },
                        self.session.outgoing_session_id,
                    ),
                    incoming_session_id: spec_next_session(
                        if handshake.outgoing_session_id == 0xFF {
                            self.session.incoming_session_id
                        } else {
                            handshake.outgoing_session_id
                        },
                        self.session.incoming_session_id,
                    ),
                    ..offered.agreed(handshake)
                },
                throttle: Throttle {
                    interval: handshake.packet_throttle_interval,
                    acceleration: handshake.packet_throttle_acceleration,
                    deceleration: handshake.packet_throttle_deceleration,
                    ..fresh.throttle
                },
                channels: Seq::new(
                    host.spec_channels(handshake.channel_count as int) as nat,
                    |i: int| ChannelView::spec_new(),
                ),
                ..fresh
            };
            ready.with_control(
                CommandBody::VerifyConnect { handshake: ready.reply_handshake(host) },
            ).with_acknowledgement(header, sent_time)
        }
    }
}

impl Peer {
    /// Accepts a connect from `address` for a disconnected peer. `header`
    /// is the header of the connect command, `handshake` and `data` are
    /// what it carries, and `sent_time` is the sent time of its datagram.
    /// Returns whether it did: a peer that is not disconnected stays as it
    /// is.
    pub fn accept(
        &mut self,
        address: Address,
        header: &CommandHeader,
        handshake: &Handshake,
        data: u32,
        sent_time: Option<u16>,
        host: &HostSettings,
    ) -> (accepted: bool)
        requires
            old(self).wf(),
        ensures
            final(self).wf(),
            accepted == (old(self)@.state == PeerState::Disconnected),
            final(self)@ == old(self)@.after_accept(
                address,
                *header,
                *handshake,
                data,
                sent_time,
                *host,
            ),
            old(self)@.state.may_become(final(self)@.state),
    {
        if self.state != PeerState::Disconnected {
            return false;
        }
        let outgoing_before = self.session.outgoing_session_id;
        let incoming_before = self.session.incoming_session_id;
        self.clear();
        self.session.mtu = host.mtu();
        self.session.window_size = initial_window(host.outgoing_bandwidth);
        self.take_over(handshake);
        self.state = PeerState::AcknowledgingConnect;
        self.address = Some(address);
        self.session.connect_id = handshake.connect_id;
        self.session.event_data = data;
        self.session.outgoing_session_id = next_session(
            if handshake.incoming_session_id == 0xFF {
                outgoing_before
            } else {
                handshake.incoming_session_id
            },
            outgoing_before,
        );
        self.session.incoming_session_id = next_session(
            if handshake.outgoing_session_id == 0xFF {
                incoming_before
            } else {
                handshake.outgoing_session_id
            },
            incoming_before,
        );
        self.throttle.configure(
            handshake.packet_throttle_interval,
            handshake.packet_throttle_acceleration,
            handshake.packet_throttle_deceleration,
        );
        let wanted = if handshake.channel_count > 0xFFFF {
            0xFFFF
        } else {
            handshake.channel_count as usize
        };
        self.channels = fresh_channels(host.channels(wanted));
        let own = self.make_handshake();
        let reply = Handshake {
            outgoing_peer_id: own.outgoing_peer_id,
            incoming_session_id: self.session.outgoing_session_id,
            outgoing_session_id: self.session.incoming_session_id,
            mtu: own.mtu,
            window_size: own.window_size,
            channel_count: own.channel_count,
            incoming_bandwidth: host.incoming_bandwidth,
            outgoing_bandwidth: host.outgoing_bandwidth,
            packet_throttle_interval: own.packet_throttle_interval,
            packet_throttle_acceleration: own.packet_throttle_acceleration,
            packet_throttle_deceleration: own.packet_throttle_deceleration,
            connect_id: own.connect_id,
        };
        self.queue_control(CommandBody::VerifyConnect { handshake: reply });
        if header.acknowledge {
            match sent_time {
                Some(time) => {
                    self.acknowledgements.push_back(
                        Acknowledgement {
                            channel_id: header.channel_id,
                            reliable_sequence_number: header.reliable_sequence_number,
                            sent_time: time,
                        },
                    );
                },
                None => {},
            }
        }
        true
    }
}

impl PeerView {
    /// The peer at the start of a bandwidth epoch: it has the given window
    /// size, and its data totals start again at zero.
    pub open spec fn after_epoch(self, window: u32) -> PeerView {
        PeerView {
            session: Session { window_size: window, ..self.session },
            counters: Counters { incoming_data_total: 0, outgoing_data_total: 0, ..self.counters },
            ..self
        }
    }
}

impl Peer {
    /// Starts a bandwidth epoch with the given window size.
    pub fn start_epoch(&mut self, window: u32)
        requires
            old(self).wf(),
            crate::consts::PROTOCOL_MINIMUM_WINDOW_SIZE <= window <= PROTOCOL_MAXIMUM_WINDOW_SIZE,
        ensures
            final(self).wf(),
            final(self)@ == old(self)@.after_epoch(window),
            old(self)@.keeps(final(self)@),
            final(self)@.state == old(self)@.state,
    {
        self.session.window_size = window;
        self.counters.incoming_data_total = 0;
        self.counters.outgoing_data_total = 0;
    }
}

impl PeerView {
    /// The peer after its host changed its bandwidths: a peer in the
    /// connected family tells the remote host of them.
    pub open spec fn after_bandwidth_change(self, incoming: u32, outgoing: u32) -> PeerView {
        if self.state.spec_in_connected_family() {
            self.with_control(
                CommandBody::BandwidthLimit {
                    incoming_bandwidth: incoming,
                    outgoing_bandwidth: outgoing,
                },
            )
        } else {
            self
        }
    }
}

impl Peer {
    /// Tells the remote host of the bandwidths of this host, if the peer is
    /// in the connected family of states.
    pub fn announce_bandwidth(&mut self, incoming: u32, outgoing: u32)
        requires
            old(self).wf(),
        ensures
            final(self).wf(),
            final(self)@ == old(self)@.after_bandwidth_change(incoming, outgoing),
            old(self)@.keeps(final(self)@),
            final(self)@.state == old(self)@.state,
    {
        if self.state.in_connected_family() {
            self.queue_control(
                CommandBody::BandwidthLimit {
                    incoming_bandwidth: incoming,
                    outgoing_bandwidth: outgoing,
                },
            );
        }
    }
}

} // verus!
