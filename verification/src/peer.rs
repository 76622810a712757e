//! The peer: one remote endpoint of a session and the state of the protocol
//! towards it.

use vstd::prelude::*;
use std::collections::VecDeque;
use std::time::Duration;
use crate::channel::{Channel, ChannelView};
use crate::datagram::command_views;
use crate::consts::{
    HOST_DEFAULT_MTU, PEER_PING_INTERVAL, PROTOCOL_MAXIMUM_CHANNEL_COUNT, PROTOCOL_MAXIMUM_MTU,
    PROTOCOL_MAXIMUM_PEER_ID, PROTOCOL_MAXIMUM_WINDOW_SIZE, PROTOCOL_MINIMUM_MTU,
    PROTOCOL_MINIMUM_WINDOW_SIZE,
};
use crate::packet::{Address, Packet, PacketView};
use crate::rtt::RoundTripTime;
use crate::throttle::Throttle;
use crate::timeout::{Retransmission, TimeoutPolicy};
use crate::unsequenced::{UnsequencedView, UnsequencedWindow};
use crate::wire::{Command, CommandView};

pub mod acknowledge;
pub mod control;
pub mod delivery;
pub mod expiry;
pub mod flush;
pub mod laws;
pub mod receive;
pub mod send;
pub mod stream;

verus! {

/// The index of a peer among the peers of its host.
#[derive(Debug, Clone, Copy, PartialEq, Eq, PartialOrd, Ord, Hash, Structural)]
pub struct PeerID(pub usize);

impl PeerID {
    /// The minimum valid value a [`PeerID`] can be.
    pub const MIN: usize = 0;

    /// The maximum valid value a [`PeerID`] can be.
    pub const MAX: usize = 0xFFF;
}

/// The state of a [`Peer`].
#[derive(Debug, Clone, Copy, PartialEq, Eq, Structural)]
pub enum PeerState {
    /// The slot is free.
    Disconnected,
    /// The peer has asked the remote host for a session.
    Connecting,
    /// The peer has answered a connect and waits for the acknowledgement
    /// of its answer.
    AcknowledgingConnect,
    /// The peer has the answer to its connect and has yet to acknowledge
    /// it.
    ConnectionPending,
    /// The peer has acknowledged the answer to its connect; the
    /// application has yet to hear of the session.
    ConnectionSucceeded,
    /// The session is set up.
    Connected,
    /// The session ends once everything queued has been sent.
    DisconnectLater,
    /// The peer has told the remote host that the session ends and waits
    /// for the acknowledgement.
    Disconnecting,
    /// A state that no peer of this engine enters: a disconnect from the
    /// remote host is acknowledged at once.
    AcknowledgingDisconnect,
    /// The session is over; the application has yet to hear of it.
    Zombie,
}

impl PeerState {
    /// Whether application traffic flows in this state.
    pub open spec fn spec_in_connected_family(self) -> bool {
        self == PeerState::Connected || self == PeerState::DisconnectLater
    }

    /// Whether the state machine has an edge from this state to `next`:
    /// - from every state to `Disconnected` (an immediate disconnect or a
    ///   reset);
    /// - from every state but `Disconnected` to `Zombie` (a timeout, the
    ///   acknowledgement of a disconnect, a failure);
    /// - `Disconnected` to `Connecting` (a local connect) and to
    ///   `AcknowledgingConnect` (a remote one);
    /// - `AcknowledgingConnect` to `Connected`;
    /// - `Connecting` to `ConnectionPending` to `ConnectionSucceeded` to
    ///   `Connected`;
    /// - `Connected` to `Disconnecting` and to `DisconnectLater`, and
    ///   `DisconnectLater` to `Disconnecting`.
    pub open spec fn spec_edge(self, next: PeerState) -> bool {
        ||| next == PeerState::Disconnected
        ||| (next == PeerState::Zombie && self != PeerState::Disconnected)
        ||| (self == PeerState::Disconnected && next == PeerState::Connecting)
        ||| (self == PeerState::Disconnected && next == PeerState::AcknowledgingConnect)
        ||| (self == PeerState::AcknowledgingConnect && next == PeerState::Connected)
        ||| (self == PeerState::Connecting && next == PeerState::ConnectionPending)
        ||| (self == PeerState::ConnectionPending && next == PeerState::ConnectionSucceeded)
        ||| (self == PeerState::ConnectionSucceeded && next == PeerState::Connected)
        ||| (self == PeerState::Connected && next == PeerState::Disconnecting)
        ||| (self == PeerState::Connected && next == PeerState::DisconnectLater)
        ||| (self == PeerState::DisconnectLater && next == PeerState::Disconnecting)
    }

    /// Whether a peer in this state may be in `next` after one step: it
    /// stays, or it moves along an edge.
    pub open spec fn may_become(self, next: PeerState) -> bool {
        self == next || self.spec_edge(next)
    }

    /// Whether application traffic flows in this state.
    pub fn in_connected_family(&self) -> (r: bool)
        ensures
            r == self.spec_in_connected_family(),
    {
        match self {
            PeerState::Connected => true,
            PeerState::DisconnectLater => true,
            _ => false,
        }
    }
}

/// Whether each state of the walk may become the next one.
pub open spec fn spec_walk(states: Seq<PeerState>) -> bool {
    forall|i: int| 0 <= i < states.len() - 1 ==> (#[trigger] states[i]).may_become(states[i + 1])
}

/// Whether a peer can get from `from` to `to` by steps of the state machine.
pub open spec fn spec_reaches(from: PeerState, to: PeerState) -> bool {
    exists|states: Seq<PeerState>|
        states.len() > 0 && states.first() == from && states.last() == to && #[trigger] spec_walk(
            states,
        )
}

/// A state reaches itself.
pub proof fn lemma_reaches_itself(state: PeerState)
    ensures
        spec_reaches(state, state),
{
    assert(spec_walk(seq![state]));
    assert(seq![state].first() == state && seq![state].last() == state);
}

/// A walk that is followed by one more step is a walk.
pub proof fn lemma_reaches_step(from: PeerState, middle: PeerState, to: PeerState)
    requires
        spec_reaches(from, middle),
        middle.may_become(to),
    ensures
        spec_reaches(from, to),
{
    let states = choose|states: Seq<PeerState>|
        states.len() > 0 && states.first() == from && states.last() == middle && #[trigger] spec_walk(
            states,
        );
    let longer = states.push(to);
    assert forall|i: int| 0 <= i < longer.len() - 1 implies (#[trigger] longer[i]).may_become(
        longer[i + 1],
    ) by {
        if i < states.len() - 1 {
            assert(states[i].may_become(states[i + 1]));
        }
    }
    assert(spec_walk(longer));
    assert(longer.first() == from && longer.last() == to);
}

/// What a host tells its application.
#[derive(Debug, Clone, PartialEq, Eq)]
pub enum Event {
    /// A session with the peer has been set up.
    Connect { peer: PeerID, data: u32 },
    /// The session with the peer has ended.
    Disconnect { peer: PeerID, data: u32 },
    /// The peer has sent a message.
    Receive { peer: PeerID, channel_id: u8, packet: Packet },
}

/// The mathematical value of an [`Event`].
pub enum EventView {
    Connect { peer: PeerID, data: u32 },
    Disconnect { peer: PeerID, data: u32 },
    Receive { peer: PeerID, channel_id: u8, packet: PacketView },
}

impl View for Event {
    type V = EventView;

    open spec fn view(&self) -> EventView {
        match *self {
            Event::Connect { peer, data } => EventView::Connect { peer, data },
            Event::Disconnect { peer, data } => EventView::Disconnect { peer, data },
            Event::Receive { peer, channel_id, packet } => EventView::Receive {
                peer,
                channel_id,
                packet: packet@,
            },
        }
    }
}

/// A reliable command received that has yet to be acknowledged.
#[derive(Debug, Clone, Copy, PartialEq, Eq)]
pub struct Acknowledgement {
    /// The channel of the command.
    pub channel_id: u8,
    /// The sequence number of the command.
    pub reliable_sequence_number: u16,
    /// The sent time of the datagram that brought the command.
    pub sent_time: u16,
}

/// A reliable command that was sent and has not been acknowledged.
#[derive(Debug, Clone, PartialEq, Eq)]
pub struct SentCommand {
    /// The command as it was sent.
    pub command: Command,
    /// When it was sent and how long it waits.
    pub timing: Retransmission,
    /// Whether the command is due to be sent again.
    pub resend: bool,
}

/// The mathematical value of a [`SentCommand`].
pub struct SentView {
    pub command: CommandView,
    pub timing: Retransmission,
    pub resend: bool,
}

impl View for SentCommand {
    type V = SentView;

    open spec fn view(&self) -> SentView {
        SentView { command: self.command@, timing: self.timing, resend: self.resend }
    }
}

/// A datagram that is ready to leave, with the address it goes to.
#[derive(Debug, Clone, PartialEq, Eq)]
pub struct Outbound {
    /// Where the datagram goes.
    pub address: Address,
    /// The datagram.
    pub bytes: Vec<u8>,
}

/// The mathematical value of an [`Outbound`].
pub struct OutboundView {
    pub address: Address,
    pub bytes: Seq<u8>,
}

impl View for Outbound {
    type V = OutboundView;

    open spec fn view(&self) -> OutboundView {
        OutboundView { address: self.address, bytes: self.bytes@ }
    }
}

/// What the two sides of a session have agreed on, and its clock.
#[derive(Debug, Clone, Copy, PartialEq, Eq)]
pub struct Session {
    /// The slot this peer has at the remote host; `0xFFF` while unknown.
    pub outgoing_peer_id: u16,
    /// The session number of the datagrams received.
    pub incoming_session_id: u8,
    /// The session number of the datagrams sent.
    pub outgoing_session_id: u8,
    /// The nonce that tells this session from the one before it.
    pub connect_id: u32,
    /// Largest datagram, in bytes, that is sent to the peer.
    pub mtu: u32,
    /// Largest amount of reliable data, in bytes, that may be in transit.
    pub window_size: u32,
    /// Downstream bandwidth of the peer in bytes per second; 0 for no limit.
    pub incoming_bandwidth: u32,
    /// Upstream bandwidth of the peer in bytes per second; 0 for no limit.
    pub outgoing_bandwidth: u32,
    /// The value that the next connect or disconnect event carries.
    pub event_data: u32,
    /// Interval in milliseconds at which an idle peer is pinged.
    pub ping_interval: u32,
    /// Time at which the last datagram was sent.
    pub last_send_time: u32,
    /// Time at which the last acknowledgement was received.
    pub last_receive_time: u32,
}

/// What a peer counts.
#[derive(Debug, Clone, Copy, PartialEq, Eq)]
pub struct Counters {
    /// Bytes received from the peer.
    pub incoming_data_total: u32,
    /// Bytes sent to the peer.
    pub outgoing_data_total: u32,
    /// Packets sent to the peer.
    pub packets_sent: u32,
    /// Packets that were lost on the way or dropped before they left.
    pub packets_lost: u32,
    /// Mean packet loss as a ratio of the loss scale.
    pub packet_loss: u32,
    /// Variance of the mean packet loss.
    pub packet_loss_variance: u32,
    /// Time at which the current loss interval began; 0 before the first.
    pub packet_loss_epoch: u32,
    /// `packets_sent` at the start of the loss interval.
    pub sent_at_epoch: u32,
    /// `packets_lost` at the start of the loss interval.
    pub lost_at_epoch: u32,
    /// Payload bytes of the reliable commands that await acknowledgement.
    pub reliable_data_in_transit: u32,
}

impl Session {
    /// The session of a peer that is not connected.
    pub open spec fn spec_new() -> Session {
        Session {
            outgoing_peer_id: PROTOCOL_MAXIMUM_PEER_ID,
            incoming_session_id: 0xFF,
            outgoing_session_id: 0xFF,
            connect_id: 0,
            mtu: HOST_DEFAULT_MTU,
            window_size: PROTOCOL_MAXIMUM_WINDOW_SIZE,
            incoming_bandwidth: 0,
            outgoing_bandwidth: 0,
            event_data: 0,
            ping_interval: PEER_PING_INTERVAL,
            last_send_time: 0,
            last_receive_time: 0,
        }
    }

    /// Whether the MTU and the window size lie within the protocol's limits.
    pub open spec fn wf(self) -> bool {
        &&& PROTOCOL_MINIMUM_MTU <= self.mtu <= PROTOCOL_MAXIMUM_MTU
        &&& PROTOCOL_MINIMUM_WINDOW_SIZE <= self.window_size <= PROTOCOL_MAXIMUM_WINDOW_SIZE
    }

    /// The session of a peer that is not connected.
    pub fn new() -> (s: Session)
        ensures
            s == Session::spec_new(),
            s.wf(),
    {
        Session {
            outgoing_peer_id: PROTOCOL_MAXIMUM_PEER_ID,
            incoming_session_id: 0xFF,
            outgoing_session_id: 0xFF,
            connect_id: 0,
            mtu: HOST_DEFAULT_MTU,
            window_size: PROTOCOL_MAXIMUM_WINDOW_SIZE,
            incoming_bandwidth: 0,
            outgoing_bandwidth: 0,
            event_data: 0,
            ping_interval: PEER_PING_INTERVAL,
            last_send_time: 0,
            last_receive_time: 0,
        }
    }
}

impl Counters {
    /// The counters of a peer that is not connected.
    pub open spec fn spec_new() -> Counters {
        Counters {
            incoming_data_total: 0,
            outgoing_data_total: 0,
            packets_sent: 0,
            packets_lost: 0,
            packet_loss: 0,
            packet_loss_variance: 0,
            packet_loss_epoch: 0,
            sent_at_epoch: 0,
            lost_at_epoch: 0,
            reliable_data_in_transit: 0,
        }
    }

    /// Number of packets sent since the current loss interval began.
    pub open spec fn spec_sent_lately(self) -> int {
        (self.packets_sent - self.sent_at_epoch) % 0x1_0000_0000
    }

    /// Number of packets lost since the current loss interval began.
    pub open spec fn spec_lost_lately(self) -> int {
        (self.packets_lost - self.lost_at_epoch) % 0x1_0000_0000
    }

    /// The loss of the current interval as a ratio of the loss scale: the
    /// packets lost for each packet sent, and no more than fits 32 bits.
    pub open spec fn spec_loss_lately(self) -> int {
        let loss = self.spec_lost_lately() * crate::consts::PEER_PACKET_LOSS_SCALE
            / self.spec_sent_lately();
        if loss > u32::MAX {
            u32::MAX as int
        } else {
            loss
        }
    }

    /// Whether a loss interval ends at `now`: one has begun, it has lasted
    /// its length, and packets were sent in it.
    pub open spec fn spec_loss_interval_over(self, now: u32) -> bool {
        &&& self.packet_loss_epoch != 0
        &&& crate::time::spec_time_difference(now, self.packet_loss_epoch)
            >= crate::consts::PEER_PACKET_LOSS_INTERVAL
        &&& self.spec_sent_lately() > 0
    }

    /// The counters after the loss statistics were brought up to date at
    /// `now`. The first time, a loss interval begins. At the end of an
    /// interval the mean loss moves an eighth of the way to the loss of the
    /// interval, the variance takes in a quarter of the distance between
    /// the two, and a new interval begins.
    #[verifier::opaque]
    pub open spec fn spec_loss_updated(self, now: u32) -> Counters {
        if self.packet_loss_epoch == 0 {
            Counters {
                packet_loss_epoch: now,
                sent_at_epoch: self.packets_sent,
                lost_at_epoch: self.packets_lost,
                ..self
            }
        } else if self.spec_loss_interval_over(now) {
            let loss = self.spec_loss_lately();
            Counters {
                packet_loss: ((self.packet_loss * 7 + loss) / 8) as u32,
                packet_loss_variance: ((self.packet_loss_variance * 3
                    + crate::rtt::spec_distance(loss, self.packet_loss as int)) / 4) as u32,
                packet_loss_epoch: now,
                sent_at_epoch: self.packets_sent,
                lost_at_epoch: self.packets_lost,
                ..self
            }
        } else {
            self
        }
    }

    /// Bringing the loss statistics up to date changes nothing but them.
    pub proof fn lemma_loss_updated(self, now: u32)
        ensures
            self.spec_loss_updated(now) == (Counters {
                packet_loss: self.spec_loss_updated(now).packet_loss,
                packet_loss_variance: self.spec_loss_updated(now).packet_loss_variance,
                packet_loss_epoch: self.spec_loss_updated(now).packet_loss_epoch,
                sent_at_epoch: self.spec_loss_updated(now).sent_at_epoch,
                lost_at_epoch: self.spec_loss_updated(now).lost_at_epoch,
                ..self
            }),
    {
        reveal(Counters::spec_loss_updated);
    }

    /// Brings the loss statistics up to date at `now`.
    pub fn update_loss(&mut self, now: u32)
        ensures
            *final(self) == old(self).spec_loss_updated(now),
            final(self).reliable_data_in_transit == old(self).reliable_data_in_transit,
    {
        proof {
            reveal(Counters::spec_loss_updated);
        }
        if self.packet_loss_epoch == 0 {
            self.packet_loss_epoch = now;
            self.sent_at_epoch = self.packets_sent;
            self.lost_at_epoch = self.packets_lost;
            return ;
        }
        let sent = self.packets_sent.wrapping_sub(self.sent_at_epoch);
        if crate::time::time_difference(now, self.packet_loss_epoch)
            < crate::consts::PEER_PACKET_LOSS_INTERVAL || sent == 0 {
            return ;
        }
        let lost = self.packets_lost.wrapping_sub(self.lost_at_epoch);
        assert(lost as u64 * crate::consts::PEER_PACKET_LOSS_SCALE as u64 <= 0xFFFF_FFFF
            * 0x1_0000) by (nonlinear_arith)
            requires
                lost <= 0xFFFF_FFFF,
                crate::consts::PEER_PACKET_LOSS_SCALE == 0x1_0000,
        ;
        let ratio: u64 = lost as u64 * crate::consts::PEER_PACKET_LOSS_SCALE as u64 / sent as u64;
        let loss: u32 = if ratio > u32::MAX as u64 {
            u32::MAX
        } else {
            ratio as u32
        };
        let distance: u32 = if loss >= self.packet_loss {
            loss - self.packet_loss
        } else {
            self.packet_loss - loss
        };
        self.packet_loss_variance = ((self.packet_loss_variance as u64 * 3 + distance as u64)
            / 4) as u32;
        self.packet_loss = ((self.packet_loss as u64 * 7 + loss as u64) / 8) as u32;
        self.packet_loss_epoch = now;
        self.sent_at_epoch = self.packets_sent;
        self.lost_at_epoch = self.packets_lost;
    }

    /// The counters of a peer that is not connected.
    pub fn new() -> (c: Counters)
        ensures
            c == Counters::spec_new(),
    {
        Counters {
            incoming_data_total: 0,
            outgoing_data_total: 0,
            packets_sent: 0,
            packets_lost: 0,
            packet_loss: 0,
            packet_loss_variance: 0,
            packet_loss_epoch: 0,
            sent_at_epoch: 0,
            lost_at_epoch: 0,
            reliable_data_in_transit: 0,
        }
    }
}

/// A peer, which may or may not be connected.
///
/// To check on the connectivity of a peer, see [`Peer::state`].
#[derive(Debug)]
pub struct Peer {
    id: PeerID,
    state: PeerState,
    address: Option<Address>,
    session: Session,
    counters: Counters,
    throttle: Throttle,
    rtt: RoundTripTime,
    timeouts: TimeoutPolicy,
    control_sequence_number: u16,
    unsequenced_group: u16,
    unsequenced: UnsequencedWindow,
    channels: Vec<Channel>,
    outgoing: VecDeque<Command>,
    staged: VecDeque<Command>,
    sent: Vec<SentCommand>,
    acknowledgements: VecDeque<Acknowledgement>,
    dispatched: VecDeque<Event>,
    outbox: VecDeque<Outbound>,
}

/// The mathematical value of a [`Peer`].
pub struct PeerView {
    pub id: PeerID,
    pub state: PeerState,
    /// The address of the remote endpoint, once it is known.
    pub address: Option<Address>,
    pub session: Session,
    pub counters: Counters,
    pub throttle: Throttle,
    pub rtt: RoundTripTime,
    pub timeouts: TimeoutPolicy,
    /// Sequence number of the last reliable command sent outside the
    /// channels.
    pub control_sequence_number: u16,
    /// Group number of the last unsequenced command sent.
    pub unsequenced_group: u16,
    /// The unsequenced groups that have been received.
    pub unsequenced: UnsequencedView,
    pub channels: Seq<ChannelView>,
    /// Commands that are ready to be packed into the next datagram.
    pub outgoing: Seq<CommandView>,
    /// Reliable commands held back because the window is full.
    pub staged: Seq<CommandView>,
    /// Reliable commands that were sent and await acknowledgement, in the
    /// order in which they were first sent.
    pub sent: Seq<SentView>,
    /// Acknowledgements that have yet to be sent.
    pub acknowledgements: Seq<Acknowledgement>,
    /// Events that have yet to be handed to the application.
    pub dispatched: Seq<EventView>,
    /// Datagrams that leave whatever becomes of the session.
    pub outbox: Seq<OutboundView>,
}

/// The views of a sequence of channels.
pub open spec fn channel_views(s: Seq<Channel>) -> Seq<ChannelView> {
    s.map_values(|c: Channel| c@)
}

/// The views of a sequence of sent commands.
pub open spec fn sent_views(s: Seq<SentCommand>) -> Seq<SentView> {
    s.map_values(|c: SentCommand| c@)
}

/// The views of a sequence of events.
pub open spec fn event_views(s: Seq<Event>) -> Seq<EventView> {
    s.map_values(|e: Event| e@)
}

/// The views of a sequence of datagrams.
pub open spec fn outbound_views(s: Seq<Outbound>) -> Seq<OutboundView> {
    s.map_values(|o: Outbound| o@)
}

/// The payload bytes of the commands that await acknowledgement.
pub open spec fn spec_in_transit(sent: Seq<SentView>) -> int
    decreases sent.len(),
{
    if sent.len() == 0 {
        0
    } else {
        spec_in_transit(sent.drop_last()) + sent.last().command.data.len()
    }
}

/// Whether every command of the sequence can be written.
pub open spec fn spec_all_wf(commands: Seq<CommandView>) -> bool {
    forall|i: int| 0 <= i < commands.len() ==> (#[trigger] commands[i]).wf()
}

/// Whether every sent command of the sequence can be written and asks for
/// an acknowledgement.
pub open spec fn spec_all_sent_wf(sent: Seq<SentView>) -> bool {
    forall|i: int|
        0 <= i < sent.len() ==> (#[trigger] sent[i]).command.wf()
            && sent[i].command.header.acknowledge
}

/// A name for the span of time of the given number of milliseconds.
pub uninterp spec fn spec_milliseconds(ms: u64) -> Duration;

/// `Duration::from_millis` of std: the span of time of the given number of
/// milliseconds. The contract gives the result a name and claims nothing
/// else of it.
#[verifier::external_body]
fn milliseconds(ms: u64) -> (d: Duration)
    ensures
        d == spec_milliseconds(ms),
{
    Duration::from_millis(ms)
}

impl View for Peer {
    type V = PeerView;

    closed spec fn view(&self) -> PeerView {
        PeerView {
            id: self.id,
            state: self.state,
            address: self.address,
            session: self.session,
            counters: self.counters,
            throttle: self.throttle,
            rtt: self.rtt,
            timeouts: self.timeouts,
            control_sequence_number: self.control_sequence_number,
            unsequenced_group: self.unsequenced_group,
            unsequenced: self.unsequenced@,
            channels: channel_views(self.channels@),
            outgoing: command_views(self.outgoing@),
            staged: command_views(self.staged@),
            sent: sent_views(self.sent@),
            acknowledgements: self.acknowledgements@,
            dispatched: event_views(self.dispatched@),
            outbox: outbound_views(self.outbox@),
        }
    }
}

impl PeerView {
    /// The peer of the given slot before it has ever been connected.
    pub open spec fn spec_new(id: PeerID) -> PeerView {
        PeerView {
            id,
            state: PeerState::Disconnected,
            address: None,
            session: Session::spec_new(),
            counters: Counters::spec_new(),
            throttle: Throttle::spec_new(),
            rtt: RoundTripTime::spec_new(),
            timeouts: TimeoutPolicy::spec_new(),
            control_sequence_number: 0,
            unsequenced_group: 0,
            unsequenced: UnsequencedView::spec_new(),
            channels: Seq::empty(),
            outgoing: Seq::empty(),
            staged: Seq::empty(),
            sent: Seq::empty(),
            acknowledgements: Seq::empty(),
            dispatched: Seq::empty(),
            outbox: Seq::empty(),
        }
    }

    /// Whether the peer has a session or is setting one up.
    pub open spec fn live(self) -> bool {
        self.state != PeerState::Disconnected && self.state != PeerState::Zombie
    }

    /// Whether `next` is the same peer further on: it has the same slot
    /// and the same address, and has no session unless this one has.
    pub open spec fn keeps(self, next: PeerView) -> bool {
        &&& next.id == self.id
        &&& next.address == self.address
        &&& (next.live() ==> self.live())
    }

    /// Whether no command of the peer waits to be sent or acknowledged.
    pub open spec fn idle(self) -> bool {
        self.outgoing.len() == 0 && self.staged.len() == 0 && self.sent.len() == 0
    }

    /// What holds of every peer:
    /// - the throttle lies within its limit and the limit within the scale;
    /// - the MTU and the window size lie within the protocol's limits;
    /// - there are at most 255 channels;
    /// - every queued command can be written;
    /// - the reliable data in transit is the sum of the payload sizes of
    ///   the commands that await acknowledgement, and no more than the
    ///   largest window and one datagram;
    /// - a peer without a session, be it disconnected or a zombie, holds no
    ///   command and no acknowledgement.
    pub open spec fn inv(self) -> bool {
        &&& self.throttle.wf()
        &&& self.session.wf()
        &&& self.channels.len() <= PROTOCOL_MAXIMUM_CHANNEL_COUNT
        &&& spec_all_wf(self.outgoing)
        &&& spec_all_wf(self.staged)
        &&& spec_all_sent_wf(self.sent)
        &&& self.counters.reliable_data_in_transit == spec_in_transit(self.sent)
        &&& self.counters.reliable_data_in_transit <= PROTOCOL_MAXIMUM_WINDOW_SIZE
            + PROTOCOL_MAXIMUM_MTU
        &&& (!self.live() ==> self.idle() && self.acknowledgements.len() == 0)
    }
}

impl Peer {
    /// The invariant of a peer: what holds of every peer's value, and the
    /// invariants of its channels and of its window of unsequenced groups.
    pub closed spec fn wf(&self) -> bool {
        &&& self@.inv()
        &&& self.unsequenced.wf()
        &&& forall|i: int| 0 <= i < self.channels@.len() ==> (#[trigger] self.channels@[i]).wf()
    }

    /// What the invariant says of the view.
    pub proof fn lemma_wf(&self)
        requires
            self.wf(),
        ensures
            self@.inv(),
    {
    }

    /// The peer of the given slot, not connected.
    pub fn new(id: PeerID) -> (p: Peer)
        ensures
            p.wf(),
            p@ == PeerView::spec_new(id),
    {
        let p = Peer {
            id,
            state: PeerState::Disconnected,
            address: None,
            session: Session::new(),
            counters: Counters::new(),
            throttle: Throttle::new(),
            rtt: RoundTripTime::new(),
            timeouts: TimeoutPolicy::new(),
            control_sequence_number: 0,
            unsequenced_group: 0,
            unsequenced: UnsequencedWindow::new(),
            channels: Vec::new(),
            outgoing: VecDeque::new(),
            staged: VecDeque::new(),
            sent: Vec::new(),
            acknowledgements: VecDeque::new(),
            dispatched: VecDeque::new(),
            outbox: VecDeque::new(),
        };
        proof {
            assert(p@.channels =~= Seq::empty());
            assert(p@.outgoing =~= Seq::empty());
            assert(p@.staged =~= Seq::empty());
            assert(p@.sent =~= Seq::empty());
            assert(p@.dispatched =~= Seq::empty());
            assert(p@.outbox =~= Seq::empty());
            assert(p@.acknowledgements =~= Seq::empty());
        }
        p
    }

    /// Get the [`PeerID`] of this peer.
    #[must_use]
    pub fn id(&self) -> (id: PeerID)
        ensures
            id == self@.id,
    {
        self.id
    }

    /// Get the current state of the peer.
    #[must_use]
    pub fn state(&self) -> (state: PeerState)
        ensures
            state == self@.state,
    {
        self.state
    }

    /// Check if this peer's state is [`PeerState::Connected`].
    #[must_use]
    pub fn connected(&self) -> (r: bool)
        ensures
            r == (self@.state == PeerState::Connected),
    {
        self.state == PeerState::Connected
    }

    /// Number of channels allocated for communication with peer.
    #[must_use]
    pub fn channel_count(&self) -> (n: usize)
        ensures
            n == self@.channels.len(),
    {
        self.channels.len()
    }

    /// Downstream bandwidth of the client in bytes/second.
    #[must_use]
    pub fn incoming_bandwidth(&self) -> (n: u32)
        ensures
            n == self@.session.incoming_bandwidth,
    {
        self.session.incoming_bandwidth
    }

    /// Upstream bandwidth of the client in bytes/second.
    #[must_use]
    pub fn outgoing_bandwidth(&self) -> (n: u32)
        ensures
            n == self@.session.outgoing_bandwidth,
    {
        self.session.outgoing_bandwidth
    }

    /// Total amount of downstream data received.
    #[must_use]
    pub fn incoming_data_total(&self) -> (n: u32)
        ensures
            n == self@.counters.incoming_data_total,
    {
        self.counters.incoming_data_total
    }

    /// Total amount of upstream data sent.
    #[must_use]
    pub fn outgoing_data_total(&self) -> (n: u32)
        ensures
            n == self@.counters.outgoing_data_total,
    {
        self.counters.outgoing_data_total
    }

    /// Total number of packets sent.
    #[must_use]
    pub fn packets_sent(&self) -> (n: u32)
        ensures
            n == self@.counters.packets_sent,
    {
        self.counters.packets_sent
    }

    /// Total number of packets lost.
    #[must_use]
    pub fn packets_lost(&self) -> (n: u32)
        ensures
            n == self@.counters.packets_lost,
    {
        self.counters.packets_lost
    }

    /// Mean packet loss of reliable packets as a ratio with respect to the
    /// loss scale.
    #[must_use]
    pub fn packet_loss(&self) -> (n: u32)
        ensures
            n == self@.counters.packet_loss,
    {
        self.counters.packet_loss
    }

    /// Variance of the mean packet loss.
    #[must_use]
    pub fn packet_loss_variance(&self) -> (n: u32)
        ensures
            n == self@.counters.packet_loss_variance,
    {
        self.counters.packet_loss_variance
    }

    /// Ping interval. See [`Peer::set_ping_interval`].
    #[must_use]
    pub fn ping_interval(&self) -> (d: Duration)
        ensures
            d == spec_milliseconds(self@.session.ping_interval as u64),
    {
        milliseconds(self.session.ping_interval as u64)
    }

    /// Mean round trip time (RTT), between sending a reliable packet and
    /// receiving its acknowledgement.
    #[must_use]
    pub fn round_trip_time(&self) -> (d: Duration)
        ensures
            d == spec_milliseconds(self@.rtt.mean as u64),
    {
        milliseconds(self.rtt.mean as u64)
    }

    /// Round trip time (RTT) variance. See [`Peer::round_trip_time`].
    #[must_use]
    pub fn round_trip_time_variance(&self) -> (d: Duration)
        ensures
            d == spec_milliseconds(self@.rtt.variance as u64),
    {
        milliseconds(self.rtt.variance as u64)
    }

    /// Address of the remote peer, or [`None`] if this peer has never been
    /// connected.
    ///
    /// If the peer has disconnected, the previously connected peer's address
    /// will be returned.
    #[must_use]
    pub fn address(&self) -> (a: Option<Address>)
        ensures
            a == self@.address,
    {
        self.address
    }

    /// The throttle of the peer.
    #[must_use]
    pub fn throttle(&self) -> (t: Throttle)
        ensures
            t == self@.throttle,
    {
        self.throttle
    }

    /// The round-trip-time estimator of the peer.
    #[must_use]
    pub fn round_trip(&self) -> (r: RoundTripTime)
        ensures
            r == self@.rtt,
    {
        self.rtt
    }

    /// The timeout parameters of the peer.
    #[must_use]
    pub fn timeout(&self) -> (t: TimeoutPolicy)
        ensures
            t == self@.timeouts,
    {
        self.timeouts
    }

    /// What the two sides of the session have agreed on.
    #[must_use]
    pub fn session(&self) -> (s: Session)
        ensures
            s == self@.session,
    {
        self.session
    }

    /// Payload bytes of the reliable commands that await acknowledgement.
    #[must_use]
    pub fn reliable_data_in_transit(&self) -> (n: u32)
        ensures
            n == self@.counters.reliable_data_in_transit,
    {
        self.counters.reliable_data_in_transit
    }

    /// Timeout parameters to control how and when a peer will timeout from
    /// a failure to acknowledge reliable traffic.
    ///
    /// Timeout values use an exponential backoff mechanism, where if a
    /// reliable packet is not acknowledged within some multiple of the
    /// average RTT plus a variance tolerance, the timeout will be doubled
    /// until it reaches a set limit. If the timeout is thus at this limit
    /// and reliable packets have been sent but not acknowledged within a
    /// certain minimum time period, the peer will be disconnected.
    /// Alternatively, if reliable packets have been sent but not
    /// acknowledged for a certain maximum time period, the peer will be
    /// disconnected regardless of the current timeout limit value.
    ///
    /// Each of `limit`, `minimum` and `maximum` stands for its default if 0.
    pub fn set_timeout(&mut self, limit: u32, minimum: u32, maximum: u32)
        ensures
            final(self)@ == (PeerView {
                timeouts: TimeoutPolicy::spec_configured(limit, minimum, maximum),
                ..old(self)@
            }),
            old(self).wf() ==> final(self).wf(),
            old(self)@.keeps(final(self)@),
    {
        self.timeouts = TimeoutPolicy::configured(limit, minimum, maximum);
    }

    /// Sets the interval at which pings will be sent to a peer in
    /// milliseconds; 0 stands for the default.
    ///
    /// Pings are used both to monitor the liveness of the connection and
    /// also to dynamically adjust the throttle during periods of low traffic
    /// so that the throttle has reasonable responsiveness during traffic
    /// spikes.
    ///
    /// See [`Peer::ping`].
    pub fn set_ping_interval(&mut self, ping_interval: u32)
        ensures
            final(self)@ == (PeerView {
                session: Session {
                    ping_interval: crate::timeout::spec_or_default(
                        ping_interval,
                        PEER_PING_INTERVAL,
                    ),
                    ..old(self)@.session
                },
                ..old(self)@
            }),
            old(self).wf() ==> final(self).wf(),
            old(self)@.keeps(final(self)@),
    {
        self.session.ping_interval = if ping_interval == 0 {
            PEER_PING_INTERVAL
        } else {
            ping_interval
        };
    }
}

} // verus!

verus! {

/// Taking the views of commands goes along with appending one.
pub(crate) proof fn lemma_command_views_push(s: Seq<Command>, c: Command)
    ensures
        command_views(s.push(c)) == command_views(s).push(c@),
{
    assert(command_views(s.push(c)) =~= command_views(s).push(c@));
}

/// Taking the views of events goes along with appending one.
pub(crate) proof fn lemma_event_views_push(s: Seq<Event>, e: Event)
    ensures
        event_views(s.push(e)) == event_views(s).push(e@),
{
    assert(event_views(s.push(e)) =~= event_views(s).push(e@));
}

/// Taking the views of datagrams goes along with appending one.
pub(crate) proof fn lemma_outbound_views_push(s: Seq<Outbound>, o: Outbound)
    ensures
        outbound_views(s.push(o)) == outbound_views(s).push(o@),
{
    assert(outbound_views(s.push(o)) =~= outbound_views(s).push(o@));
}

/// Taking the views of sent commands goes along with appending one.
pub(crate) proof fn lemma_sent_views_push(s: Seq<SentCommand>, c: SentCommand)
    ensures
        sent_views(s.push(c)) == sent_views(s).push(c@),
{
    assert(sent_views(s.push(c)) =~= sent_views(s).push(c@));
}

/// A sequence of writable commands stays one when a writable command joins.
pub(crate) proof fn lemma_all_wf_push(s: Seq<CommandView>, c: CommandView)
    requires
        spec_all_wf(s),
        c.wf(),
    ensures
        spec_all_wf(s.push(c)),
{
    assert forall|i: int| 0 <= i < s.push(c).len() implies (#[trigger] s.push(c)[i]).wf() by {
        if i < s.len() {
            assert(s.push(c)[i] == s[i]);
        }
    }
}

} // verus!

verus! {

/// Taking the views of channels goes along with replacing one.
pub(crate) proof fn lemma_channel_views_update(s: Seq<Channel>, i: int, c: Channel)
    requires
        0 <= i < s.len(),
    ensures
        channel_views(s.update(i, c)) == channel_views(s).update(i, c@),
{
    assert(channel_views(s.update(i, c)) =~= channel_views(s).update(i, c@));
}

} // verus!

verus! {

/// Taking the views of sent commands goes along with removing one.
pub(crate) proof fn lemma_sent_views_remove(s: Seq<SentCommand>, i: int)
    requires
        0 <= i < s.len(),
    ensures
        sent_views(s.remove(i)) == sent_views(s).remove(i),
{
    assert(sent_views(s.remove(i)) =~= sent_views(s).remove(i));
}

/// Taking the views of sent commands goes along with replacing one.
pub(crate) proof fn lemma_sent_views_update(s: Seq<SentCommand>, i: int, c: SentCommand)
    requires
        0 <= i < s.len(),
    ensures
        sent_views(s.update(i, c)) == sent_views(s).update(i, c@),
{
    assert(sent_views(s.update(i, c)) =~= sent_views(s).update(i, c@));
}

/// Taking the views of commands goes along with removing one.
pub(crate) proof fn lemma_command_views_remove(s: Seq<Command>, i: int)
    requires
        0 <= i < s.len(),
    ensures
        command_views(s.remove(i)) == command_views(s).remove(i),
{
    assert(command_views(s.remove(i)) =~= command_views(s).remove(i));
}

/// Taking the views of events goes along with removing one.
pub(crate) proof fn lemma_event_views_remove(s: Seq<Event>, i: int)
    requires
        0 <= i < s.len(),
    ensures
        event_views(s.remove(i)) == event_views(s).remove(i),
{
    assert(event_views(s.remove(i)) =~= event_views(s).remove(i));
}

/// Taking the views of datagrams goes along with removing one.
pub(crate) proof fn lemma_outbound_views_remove(s: Seq<Outbound>, i: int)
    requires
        0 <= i < s.len(),
    ensures
        outbound_views(s.remove(i)) == outbound_views(s).remove(i),
{
    assert(outbound_views(s.remove(i)) =~= outbound_views(s).remove(i));
}

/// The data in transit grows by the payload of a command that joins those
/// awaiting acknowledgement.
pub(crate) proof fn lemma_in_transit_push(sent: Seq<SentView>, c: SentView)
    ensures
        spec_in_transit(sent.push(c)) == spec_in_transit(sent) + c.command.data.len(),
{
    assert(sent.push(c).drop_last() =~= sent);
}

/// The data in transit shrinks by the payload of a command that leaves
/// those awaiting acknowledgement.
pub(crate) proof fn lemma_in_transit_remove(sent: Seq<SentView>, i: int)
    requires
        0 <= i < sent.len(),
    ensures
        spec_in_transit(sent.remove(i)) == spec_in_transit(sent) - sent[i].command.data.len(),
        spec_in_transit(sent) >= sent[i].command.data.len(),
        spec_in_transit(sent.remove(i)) >= 0,
    decreases sent.len(),
{
    lemma_in_transit_nonnegative(sent.remove(i));
    if i == sent.len() - 1 {
        assert(sent.remove(i) =~= sent.drop_last());
    } else {
        lemma_in_transit_remove(sent.drop_last(), i);
        assert(sent.remove(i).drop_last() =~= sent.drop_last().remove(i));
        assert(sent.remove(i).last() == sent.last());
    }
}

/// The data in transit is never negative.
pub(crate) proof fn lemma_in_transit_nonnegative(sent: Seq<SentView>)
    ensures
        spec_in_transit(sent) >= 0,
    decreases sent.len(),
{
    if sent.len() > 0 {
        lemma_in_transit_nonnegative(sent.drop_last());
    }
}

/// The data in transit stays the same when a command that awaits
/// acknowledgement is replaced by one with the same payload.
pub(crate) proof fn lemma_in_transit_update(sent: Seq<SentView>, i: int, c: SentView)
    requires
        0 <= i < sent.len(),
        c.command.data.len() == sent[i].command.data.len(),
    ensures
        spec_in_transit(sent.update(i, c)) == spec_in_transit(sent),
    decreases sent.len(),
{
    if i == sent.len() - 1 {
        assert(sent.update(i, c).drop_last() =~= sent.drop_last());
    } else {
        lemma_in_transit_update(sent.drop_last(), i, c);
        assert(sent.update(i, c).drop_last() =~= sent.drop_last().update(i, c));
    }
}

} // verus!
