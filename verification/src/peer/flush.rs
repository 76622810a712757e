//! The send phase: packing the commands of a peer into datagrams.

use vstd::prelude::*;
use std::collections::VecDeque;
use crate::consts::{PROTOCOL_MAXIMUM_PACKET_COMMANDS, PROTOCOL_MAXIMUM_WINDOW_SIZE};
use crate::bytes::push_all;
use crate::datagram::{
    command_views, commands_bytes, lemma_commands_bytes_push, DatagramView, ProtocolHeader,
};
use crate::wire::lemma_bytes_len;
use crate::peer::control::{spec_header_peer, spec_header_session};
use crate::peer::{
    lemma_all_wf_push, lemma_command_views_push, lemma_command_views_remove, lemma_in_transit_push,
    lemma_in_transit_update, lemma_outbound_views_remove, lemma_sent_views_push,
    lemma_sent_views_update, outbound_views, spec_all_wf, Acknowledgement, Counters, Outbound,
    OutboundView, Peer, PeerState, PeerView, SentCommand, SentView, Session,
};
use crate::throttle::spec_max;
use crate::time::{spec_time_difference, time_difference};
use crate::timeout::Retransmission;
use crate::wire::{Command, CommandBody, CommandHeader, CommandView};

verus! {

/// Bytes of a datagram that are kept for the protocol header with its sent
/// time and for the checksum.
pub const PROTOCOL_HEADER_SIZE: usize = 8;

/// The command that carries the given acknowledgement.
pub open spec fn spec_acknowledge_command(a: Acknowledgement) -> CommandView {
    CommandView {
        header: CommandHeader {
            acknowledge: false,
            unsequenced: false,
            channel_id: a.channel_id,
            reliable_sequence_number: a.reliable_sequence_number,
        },
        body: CommandBody::Acknowledge {
            received_reliable_sequence_number: a.reliable_sequence_number,
            received_sent_time: a.sent_time,
        },
        data: Seq::empty(),
    }
}

/// Whether a datagram that holds the given commands has room for one more
/// at the given MTU: it holds fewer than the most a datagram may hold, and
/// header, commands and the new command together do not exceed the MTU.
pub open spec fn spec_room(packed: Seq<CommandView>, next: CommandView, mtu: u32) -> bool {
    &&& packed.len() < PROTOCOL_MAXIMUM_PACKET_COMMANDS
    &&& PROTOCOL_HEADER_SIZE + commands_bytes(packed).len() + next.size() <= mtu
}

/// What packing the acknowledgements yields.
pub struct PackedAcknowledgements {
    /// The commands of the datagram so far.
    pub packed: Seq<CommandView>,
    /// The acknowledgements that did not fit.
    pub left: Seq<Acknowledgement>,
}

/// Packs acknowledgements, front to back, until one does not fit.
pub open spec fn spec_pack_acknowledgements(
    waiting: Seq<Acknowledgement>,
    packed: Seq<CommandView>,
    mtu: u32,
) -> PackedAcknowledgements
    decreases waiting.len(),
{
    if waiting.len() == 0 || !spec_room(packed, spec_acknowledge_command(waiting[0]), mtu) {
        PackedAcknowledgements { packed, left: waiting }
    } else {
        spec_pack_acknowledgements(
            waiting.drop_first(),
            packed.push(spec_acknowledge_command(waiting[0])),
            mtu,
        )
    }
}

/// What packing the commands that are due again yields.
pub struct PackedResends {
    /// The commands of the datagram so far.
    pub packed: Seq<CommandView>,
    /// The commands that await acknowledgement.
    pub sent: Seq<SentView>,
}

/// Packs the commands from place `i` on that are due to be sent again, in
/// their order, until one does not fit. A command that is packed is no
/// longer due.
pub open spec fn spec_pack_resends(
    sent: Seq<SentView>,
    i: int,
    packed: Seq<CommandView>,
    mtu: u32,
) -> PackedResends
    decreases sent.len() - i,
{
    if i < 0 || i >= sent.len() {
        PackedResends { packed, sent }
    } else if !sent[i].resend {
        spec_pack_resends(sent, i + 1, packed, mtu)
    } else if !spec_room(packed, sent[i].command, mtu) {
        PackedResends { packed, sent }
    } else {
        spec_pack_resends(
            sent.update(i, SentView { resend: false, ..sent[i] }),
            i + 1,
            packed.push(sent[i].command),
            mtu,
        )
    }
}

/// What packing the commands that wait to be sent for the first time
/// yields.
pub struct PackedCommands {
    /// The commands of the datagram so far.
    pub packed: Seq<CommandView>,
    /// The commands that await acknowledgement.
    pub sent: Seq<SentView>,
    /// Reliable commands held back because the window is full.
    pub staged: Seq<CommandView>,
    /// Commands that did not fit the datagram.
    pub left: Seq<CommandView>,
    /// Payload bytes of the commands that await acknowledgement.
    pub in_transit: int,
}

/// Packs the commands that wait to be sent for the first time, front to
/// back, until one does not fit the datagram.
///
/// A reliable command whose payload would bring the data in transit
/// above `window` is held back, and with it every reliable command behind
/// it. A reliable command that is packed awaits acknowledgement from `now`
/// on with the given timeout.
pub open spec fn spec_pack_commands(
    waiting: Seq<CommandView>,
    so_far: PackedCommands,
    window: int,
    mtu: u32,
    now: u32,
    timeout: u32,
) -> PackedCommands
    decreases waiting.len(),
{
    if waiting.len() == 0 {
        PackedCommands { left: Seq::empty(), ..so_far }
    } else {
        let c = waiting[0];
        if c.header.acknowledge && (so_far.staged.len() > 0 || so_far.in_transit + c.data.len()
            > window) {
            spec_pack_commands(
                waiting.drop_first(),
                PackedCommands { staged: so_far.staged.push(c), ..so_far },
                window,
                mtu,
                now,
                timeout,
            )
        } else if !spec_room(so_far.packed, c, mtu) {
            PackedCommands { left: waiting, ..so_far }
        } else if c.header.acknowledge {
            spec_pack_commands(
                waiting.drop_first(),
                PackedCommands {
                    packed: so_far.packed.push(c),
                    sent: so_far.sent.push(
                        SentView {
                            command: c,
                            timing: Retransmission::spec_first(now, timeout),
                            resend: false,
                        },
                    ),
                    in_transit: so_far.in_transit + c.data.len(),
                    ..so_far
                },
                window,
                mtu,
                now,
                timeout,
            )
        } else {
            spec_pack_commands(
                waiting.drop_first(),
                PackedCommands { packed: so_far.packed.push(c), ..so_far },
                window,
                mtu,
                now,
                timeout,
            )
        }
    }
}

/// Whether one of the commands asks for an acknowledgement.
pub open spec fn spec_asks_acknowledgement(commands: Seq<CommandView>) -> bool {
    exists|i: int| 0 <= i < commands.len() && (#[trigger] commands[i]).header.acknowledge
}

impl PeerView {
    /// Whether the peer is due a ping at `now`: it is in the connected
    /// family, has nothing to send and nothing that awaits acknowledgement,
    /// and has heard no acknowledgement for a ping interval.
    pub open spec fn due_ping(self, now: u32) -> bool {
        &&& self.state.spec_in_connected_family()
        &&& self.idle()
        &&& spec_time_difference(now, self.session.last_receive_time)
            >= self.session.ping_interval
    }

    /// The peer as it enters the send phase at `now`: with its loss
    /// statistics up to date, and a ping queued where one is due.
    pub open spec fn primed(self, now: u32) -> PeerView {
        let counted = PeerView { counters: self.counters.spec_loss_updated(now), ..self };
        if self.due_ping(now) {
            counted.with_control(CommandBody::Ping)
        } else {
            counted
        }
    }

    /// The amount of reliable data, in bytes, that may be in transit: the
    /// window size, and at least one datagram.
    pub open spec fn window(self) -> int {
        spec_max(self.session.window_size as int, self.session.mtu as int)
    }

    /// The acknowledgements of the next datagram.
    pub open spec fn packed_acknowledgements(self) -> PackedAcknowledgements {
        spec_pack_acknowledgements(self.acknowledgements, Seq::empty(), self.session.mtu)
    }

    /// The acknowledgements of the next datagram and behind them the
    /// commands that are sent again.
    pub open spec fn packed_resends(self) -> PackedResends {
        spec_pack_resends(self.sent, 0, self.packed_acknowledgements().packed, self.session.mtu)
    }

    /// The commands of the next datagram at `now`: acknowledgements,
    /// commands that are sent again and commands that are sent for the
    /// first time, the held-back ones before the others.
    pub open spec fn packed_commands(self, now: u32) -> PackedCommands {
        spec_pack_commands(
            self.staged + self.outgoing,
            PackedCommands {
                packed: self.packed_resends().packed,
                sent: self.packed_resends().sent,
                staged: Seq::empty(),
                left: Seq::empty(),
                in_transit: self.counters.reliable_data_in_transit as int,
            },
            self.window(),
            self.session.mtu,
            now,
            self.rtt.spec_timeout(),
        )
    }

    /// The datagram that the given commands leave in at `now`: it carries
    /// the sent time if one of them asks for an acknowledgement.
    pub open spec fn datagram_of(self, commands: Seq<CommandView>, now: u32) -> DatagramView {
        DatagramView {
            header: ProtocolHeader {
                peer_id: spec_header_peer(self.session),
                session_id: spec_header_session(self.session),
                sent_time: if spec_asks_acknowledgement(commands) {
                    Some((now % 0x1_0000) as u16)
                } else {
                    None
                },
            },
            checksum: None,
            commands,
        }
    }

    /// Whether the peer packs commands at all: it is neither disconnected
    /// nor a zombie, and its address is known.
    pub open spec fn packs(self) -> bool {
        self.state != PeerState::Disconnected && self.state != PeerState::Zombie
            && self.address is Some
    }

    /// The datagram that leaves the peer next at `now`, if one does: the
    /// first of those that leave whatever becomes of the session, or else
    /// one packed from the peer's commands, if there are any to pack.
    pub open spec fn flush_output(self, now: u32) -> Option<OutboundView> {
        if self.outbox.len() > 0 {
            Some(self.outbox[0])
        } else if !self.packs() || self.primed(now).packed_commands(now).packed.len() == 0 {
            None
        } else {
            Some(
                OutboundView {
                    address: self.address->0,
                    bytes: self.datagram_of(
                        self.primed(now).packed_commands(now).packed,
                        now,
                    ).bytes(),
                },
            )
        }
    }

    /// The peer after the commands of a datagram were packed at `now`: the
    /// queues are what the packing left, and a datagram that holds a
    /// command is counted. A peer whose connection is pending, and whose
    /// acknowledgement of the answer to its connect leaves, has succeeded
    /// in connecting.
    pub open spec fn after_packing(self, now: u32) -> PeerView {
        let start = self.primed(now);
        let acknowledgements = start.packed_acknowledgements();
        let result = start.packed_commands(now);
        let bytes = self.datagram_of(result.packed, now).bytes();
        PeerView {
            state: if start.state == PeerState::ConnectionPending && acknowledgements.packed.len()
                > 0 {
                PeerState::ConnectionSucceeded
            } else {
                start.state
            },
            acknowledgements: acknowledgements.left,
            sent: result.sent,
            staged: result.staged,
            outgoing: result.left,
            counters: Counters {
                reliable_data_in_transit: result.in_transit as u32,
                outgoing_data_total: if result.packed.len() == 0 {
                    start.counters.outgoing_data_total
                } else {
                    ((start.counters.outgoing_data_total + bytes.len()) % 0x1_0000_0000) as u32
                },
                packets_sent: ((start.counters.packets_sent + result.packed.len()
                    - acknowledgements.packed.len()) % 0x1_0000_0000) as u32,
                ..start.counters
            },
            session: Session {
                last_send_time: if result.packed.len() == 0 {
                    start.session.last_send_time
                } else {
                    now
                },
                ..start.session
            },
            ..start
        }
    }

    /// The peer after the send phase asked it for its next datagram at
    /// `now`.
    ///
    /// A datagram that leaves whatever becomes of the session goes first.
    /// Otherwise a peer that packs commands queues a ping if one is due
    /// and packs what fits. A peer that is to disconnect later and has
    /// nothing left to send begins to disconnect.
    pub open spec fn after_flush(self, now: u32) -> PeerView {
        if self.outbox.len() > 0 {
            PeerView { outbox: self.outbox.drop_first(), ..self }
        } else if !self.packs() {
            self
        } else {
            let packed = self.after_packing(now);
            if packed.state == PeerState::DisconnectLater && packed.idle() {
                packed.disconnecting(packed.session.event_data)
            } else {
                packed
            }
        }
    }
}

/// One more command asks for an acknowledgement if it does itself or one
/// of those before it does.
proof fn lemma_asks_push(commands: Seq<CommandView>, c: CommandView)
    ensures
        spec_asks_acknowledgement(commands.push(c)) == (spec_asks_acknowledgement(commands)
            || c.header.acknowledge),
{
    let longer = commands.push(c);
    if spec_asks_acknowledgement(commands) {
        let i = choose|i: int| 0 <= i < commands.len() && (#[trigger] commands[i]).header.acknowledge;
        assert(longer[i].header.acknowledge);
    }
    if c.header.acknowledge {
        assert(longer[commands.len() as int].header.acknowledge);
    }
    if spec_asks_acknowledgement(longer) {
        let i = choose|i: int| 0 <= i < longer.len() && (#[trigger] longer[i]).header.acknowledge;
        if i < commands.len() {
            assert(commands[i].header.acknowledge);
        }
    }
}

/// The commands of a datagram as they are being packed.
struct Pack {
    bytes: Vec<u8>,
    count: usize,
    asks: bool,
}

impl Pack {
    /// Whether the pack holds just the given commands.
    spec fn holds(&self, packed: Seq<CommandView>) -> bool {
        &&& self.bytes@ == commands_bytes(packed)
        &&& self.count == packed.len()
        &&& self.asks == spec_asks_acknowledgement(packed)
        &&& self.count <= PROTOCOL_MAXIMUM_PACKET_COMMANDS
        &&& self.bytes@.len() <= crate::consts::PROTOCOL_MAXIMUM_MTU
    }

    /// A pack without commands.
    fn new() -> (pack: Pack)
        ensures
            pack.holds(Seq::empty()),
    {
        Pack { bytes: Vec::new(), count: 0, asks: false }
    }

    /// Whether the pack has room for the given command.
    fn has_room(&self, command: &Command, mtu: u32, Ghost(packed): Ghost<Seq<CommandView>>) -> (r:
        bool)
        requires
            self.holds(packed),
            command@.wf(),
            mtu <= crate::consts::PROTOCOL_MAXIMUM_MTU,
        ensures
            r == spec_room(packed, command@, mtu),
    {
        self.count < PROTOCOL_MAXIMUM_PACKET_COMMANDS && PROTOCOL_HEADER_SIZE + self.bytes.len()
            + command.size() <= mtu as usize
    }

    /// Puts the given command into the pack.
    fn put(&mut self, command: &Command, mtu: u32, Ghost(packed): Ghost<Seq<CommandView>>)
        requires
            old(self).holds(packed),
            command@.wf(),
            spec_room(packed, command@, mtu),
            mtu <= crate::consts::PROTOCOL_MAXIMUM_MTU,
        ensures
            final(self).holds(packed.push(command@)),
    {
        proof {
            lemma_commands_bytes_push(packed, command@);
            lemma_asks_push(packed, command@);
            lemma_bytes_len(command@);
        }
        command.encode(&mut self.bytes);
        self.count = self.count + 1;
        if command.header.acknowledge {
            self.asks = true;
        }
    }
}

impl Peer {
    /// Packs the acknowledgements that fit.
    fn pack_acknowledgements(&mut self, pack: &mut Pack)
        requires
            old(self).wf(),
            old(self)@.live(),
            old(pack).holds(Seq::empty()),
        ensures
            final(self).wf(),
            final(pack).holds(old(self)@.packed_acknowledgements().packed),
            final(self)@ == (PeerView {
                acknowledgements: old(self)@.packed_acknowledgements().left,
                ..old(self)@
            }),
    {
        let ghost start = self@;
        let ghost mut packed: Seq<CommandView> = Seq::empty();
        let mtu = self.session.mtu;
        let mut full = false;
        while self.acknowledgements.len() > 0 && !full
            invariant
                self.wf(),
                pack.holds(packed),
                mtu == start.session.mtu,
                self@ == (PeerView { acknowledgements: self@.acknowledgements, ..start }),
                spec_pack_acknowledgements(self@.acknowledgements, packed, mtu)
                    == start.packed_acknowledgements(),
                full ==> self@.acknowledgements.len() > 0 && !spec_room(
                    packed,
                    spec_acknowledge_command(self@.acknowledgements[0]),
                    mtu,
                ),
            decreases self@.acknowledgements.len() + if full { 0int } else { 1 },
        {
            let a = self.acknowledgements[0];
            let command = Command {
                header: CommandHeader {
                    acknowledge: false,
                    unsequenced: false,
                    channel_id: a.channel_id,
                    reliable_sequence_number: a.reliable_sequence_number,
                },
                body: CommandBody::Acknowledge {
                    received_reliable_sequence_number: a.reliable_sequence_number,
                    received_sent_time: a.sent_time,
                },
                data: Vec::new(),
            };
            assert(command@.data =~= Seq::empty());
            assert(command@ == spec_acknowledge_command(a));
            if pack.has_room(&command, mtu, Ghost(packed)) {
                pack.put(&command, mtu, Ghost(packed));
                let ghost waiting = self.acknowledgements@;
                self.acknowledgements.pop_front();
                proof {
                    packed = packed.push(command@);
                    assert(self.acknowledgements@ =~= waiting.drop_first());
                }
            } else {
                full = true;
            }
        }
    }

    /// Packs the commands that are due to be sent again, as far as they
    /// fit.
    #[verifier::rlimit(50)]
    fn pack_resends(&mut self, pack: &mut Pack, Ghost(packed_before): Ghost<Seq<CommandView>>)
        requires
            old(self).wf(),
            old(self)@.live(),
            old(pack).holds(packed_before),
        ensures
            final(self).wf(),
            final(pack).holds(
                spec_pack_resends(old(self)@.sent, 0, packed_before, old(self)@.session.mtu).packed,
            ),
            final(self)@ == (PeerView {
                sent: spec_pack_resends(
                    old(self)@.sent,
                    0,
                    packed_before,
                    old(self)@.session.mtu,
                ).sent,
                ..old(self)@
            }),
    {
        let ghost start = self@;
        let ghost mut packed: Seq<CommandView> = packed_before;
        let mtu = self.session.mtu;
        let mut full = false;
        let mut i: usize = 0;
        while i < self.sent.len() && !full
            invariant
                self.wf(),
                pack.holds(packed),
                mtu == start.session.mtu,
                i <= self@.sent.len(),
                self@ == (PeerView { sent: self@.sent, ..start }),
                spec_pack_resends(self@.sent, i as int, packed, mtu) == spec_pack_resends(
                    start.sent,
                    0,
                    packed_before,
                    mtu,
                ),
                full ==> i < self@.sent.len() && self@.sent[i as int].resend && !spec_room(
                    packed,
                    self@.sent[i as int].command,
                    mtu,
                ),
            decreases self@.sent.len() - i + if full { 0int } else { 1 },
        {
            let ghost sent = self.sent@;
            let ghost views = self@.sent;
            assert(views[i as int] == sent[i as int]@);
            assert(views[i as int].command.wf());
            if self.sent[i].resend {
                if pack.has_room(&self.sent[i].command, mtu, Ghost(packed)) {
                    pack.put(&self.sent[i].command, mtu, Ghost(packed));
                    self.sent[i].resend = false;
                    proof {
                        packed = packed.push(views[i as int].command);
                        let changed = self.sent@[i as int];
                        assert(self.sent@ =~= sent.update(i as int, changed));
                        lemma_sent_views_update(sent, i as int, changed);
                        lemma_in_transit_update(views, i as int, changed@);
                        assert(changed@ == (SentView { resend: false, ..views[i as int] }));
                        assert forall|k: int| 0 <= k < self@.sent.len() implies (
                        #[trigger] self@.sent[k]).command.wf()
                            && self@.sent[k].command.header.acknowledge by {
                            if k != i {
                                assert(self@.sent[k] == views[k]);
                            }
                        }
                    }
                    i = i + 1;
                } else {
                    full = true;
                }
            } else {
                i = i + 1;
            }
        }
    }
}

impl Peer {
    /// The amount of reliable data, in bytes, that may be in transit.
    fn window(&self) -> (w: u32)
        requires
            self.wf(),
        ensures
            w == self@.window(),
            w <= PROTOCOL_MAXIMUM_WINDOW_SIZE,
    {
        if self.session.window_size >= self.session.mtu {
            self.session.window_size
        } else {
            self.session.mtu
        }
    }

    /// Packs the commands that wait to be sent for the first time, as far
    /// as they fit, and holds back the reliable ones that the window has no
    /// room for.
    #[verifier::rlimit(50)]
    fn pack_commands(&mut self, pack: &mut Pack, now: u32, Ghost(packed_before): Ghost<Seq<CommandView>>)
        requires
            old(self).wf(),
            old(self)@.live(),
            old(pack).holds(packed_before),
        ensures
            final(self).wf(),
            ({
                let result = spec_pack_commands(
                    old(self)@.staged + old(self)@.outgoing,
                    PackedCommands {
                        packed: packed_before,
                        sent: old(self)@.sent,
                        staged: Seq::empty(),
                        left: Seq::empty(),
                        in_transit: old(self)@.counters.reliable_data_in_transit as int,
                    },
                    old(self)@.window(),
                    old(self)@.session.mtu,
                    now,
                    old(self)@.rtt.spec_timeout(),
                );
                &&& final(pack).holds(result.packed)
                &&& final(self)@ == (PeerView {
                    sent: result.sent,
                    staged: result.staged,
                    outgoing: result.left,
                    counters: Counters {
                        reliable_data_in_transit: result.in_transit as u32,
                        ..old(self)@.counters
                    },
                    ..old(self)@
                })
            }),
    {
        let ghost start = self@;
        let ghost mut packed: Seq<CommandView> = packed_before;
        let mtu = self.session.mtu;
        let window = self.window();
        let timeout = self.rtt.timeout();
        let ghost goal = spec_pack_commands(
            start.staged + start.outgoing,
            PackedCommands {
                packed: packed_before,
                sent: start.sent,
                staged: Seq::empty(),
                left: Seq::empty(),
                in_transit: start.counters.reliable_data_in_transit as int,
            },
            window as int,
            mtu,
            now,
            timeout,
        );
        let mut queue: VecDeque<Command> = VecDeque::new();
        std::mem::swap(&mut queue, &mut self.staged);
        let ghost held = queue@;
        let ghost ready = self.outgoing@;
        queue.append(&mut self.outgoing);
        proof {
            assert(command_views(queue@) =~= start.staged + start.outgoing);
            assert(command_views(self.staged@) =~= Seq::<CommandView>::empty());
            assert(command_views(self.outgoing@) =~= Seq::<CommandView>::empty());
            assert(spec_all_wf(command_views(queue@))) by {
                assert forall|k: int| 0 <= k < command_views(queue@).len() implies (
                #[trigger] command_views(queue@)[k]).wf() by {
                    if k < start.staged.len() {
                        assert(command_views(queue@)[k] == start.staged[k]);
                    } else {
                        assert(command_views(queue@)[k] == start.outgoing[k - start.staged.len()]);
                    }
                }
            }
        }
        let mut full = false;
        while queue.len() > 0 && !full
            invariant
                self.wf(),
                pack.holds(packed),
                mtu == start.session.mtu,
                window == start.window(),
                window <= PROTOCOL_MAXIMUM_WINDOW_SIZE,
                start.live(),
                timeout == start.rtt.spec_timeout(),
                spec_all_wf(command_views(queue@)),
                self@.outgoing.len() == 0,
                self@ == (PeerView {
                    sent: self@.sent,
                    staged: self@.staged,
                    outgoing: self@.outgoing,
                    counters: Counters {
                        reliable_data_in_transit: self@.counters.reliable_data_in_transit,
                        ..start.counters
                    },
                    ..start
                }),
                self@.counters.reliable_data_in_transit <= spec_max(
                    start.counters.reliable_data_in_transit as int,
                    window as int,
                ),
                !full ==> spec_pack_commands(
                    command_views(queue@),
                    PackedCommands {
                        packed,
                        sent: self@.sent,
                        staged: self@.staged,
                        left: Seq::empty(),
                        in_transit: self@.counters.reliable_data_in_transit as int,
                    },
                    window as int,
                    mtu,
                    now,
                    timeout,
                ) == goal,
                full ==> goal == (PackedCommands {
                    packed,
                    sent: self@.sent,
                    staged: self@.staged,
                    left: command_views(queue@),
                    in_transit: self@.counters.reliable_data_in_transit as int,
                }),
            decreases queue@.len() + if full { 0int } else { 1 },
        {
            let ghost waiting = queue@;
            let ghost views = command_views(queue@);
            assert(views[0] == waiting[0]@);
            assert(views[0].wf());
            let reliable = queue[0].header.acknowledge;
            let length = queue[0].data.len();
            let blocked = reliable && (self.staged.len() > 0
                || self.counters.reliable_data_in_transit as usize + length > window as usize);
            if blocked {
                proof {
                    lemma_command_views_remove(waiting, 0);
                    assert(views.remove(0) =~= views.drop_first());
                    assert(waiting.remove(0) =~= waiting.subrange(1, waiting.len() as int));
                }
                match queue.pop_front() {
                    Some(command) => {
                        proof {
                            lemma_command_views_push(self.staged@, command);
                            lemma_all_wf_push(self@.staged, command@);
                        }
                        self.staged.push_back(command);
                    },
                    None => {},
                }
                assert(spec_all_wf(command_views(queue@))) by {
                    assert forall|k: int| 0 <= k < command_views(queue@).len() implies (
                    #[trigger] command_views(queue@)[k]).wf() by {
                        assert(command_views(queue@)[k] == views[k + 1]);
                    }
                }
            } else if !pack.has_room(&queue[0], mtu, Ghost(packed)) {
                full = true;
            } else {
                proof {
                    lemma_command_views_remove(waiting, 0);
                    assert(views.remove(0) =~= views.drop_first());
                    assert(waiting.remove(0) =~= waiting.subrange(1, waiting.len() as int));
                }
                match queue.pop_front() {
                    Some(command) => {
                        pack.put(&command, mtu, Ghost(packed));
                        proof {
                            packed = packed.push(command@);
                        }
                        if reliable {
                            let entry = SentCommand {
                                command,
                                timing: Retransmission::first(now, timeout),
                                resend: false,
                            };
                            proof {
                                lemma_sent_views_push(self.sent@, entry);
                                lemma_in_transit_push(self@.sent, entry@);
                                assert forall|k: int|
                                    0 <= k < self@.sent.push(entry@).len() implies (
                                #[trigger] self@.sent.push(entry@)[k]).command.wf()
                                    && self@.sent.push(entry@)[k].command.header.acknowledge by {
                                    if k < self@.sent.len() {
                                        assert(self@.sent.push(entry@)[k] == self@.sent[k]);
                                    }
                                }
                            }
                            self.sent.push(entry);
                            self.counters.reliable_data_in_transit =
                                self.counters.reliable_data_in_transit + length as u32;
                        }
                    },
                    None => {},
                }
                assert(spec_all_wf(command_views(queue@))) by {
                    assert forall|k: int| 0 <= k < command_views(queue@).len() implies (
                    #[trigger] command_views(queue@)[k]).wf() by {
                        assert(command_views(queue@)[k] == views[k + 1]);
                    }
                }
            }
        }
        proof {
            if !full {
                assert(command_views(queue@).len() == 0);
                assert(command_views(queue@) =~= Seq::<CommandView>::empty());
            }
            assert(command_views(queue@) == goal.left);
        }
        std::mem::swap(&mut queue, &mut self.outgoing);
    }
}

impl Peer {
    /// Queues a ping if one is due and packs the commands of the next
    /// datagram.
    fn pack(&mut self, now: u32) -> (r: (Pack, usize))
        requires
            old(self).wf(),
            old(self)@.packs(),
        ensures
            final(self).wf(),
            r.0.holds(old(self)@.primed(now).packed_commands(now).packed),
            r.1 == old(self)@.primed(now).packed_acknowledgements().packed.len(),
            r.1 <= r.0.count,
            ({
                let start = old(self)@.primed(now);
                let result = start.packed_commands(now);
                final(self)@ == (PeerView {
                    acknowledgements: start.packed_acknowledgements().left,
                    sent: result.sent,
                    staged: result.staged,
                    outgoing: result.left,
                    counters: Counters {
                        reliable_data_in_transit: result.in_transit as u32,
                        ..start.counters
                    },
                    ..start
                })
            }),
    {
        self.counters.update_loss(now);
        if self.state.in_connected_family() && self.outgoing.len() == 0 && self.staged.len() == 0
            && self.sent.len() == 0 && time_difference(now, self.session.last_receive_time)
            >= self.session.ping_interval {
            self.queue_control(CommandBody::Ping);
        }
        let ghost start = self@;
        let mut pack = Pack::new();
        self.pack_acknowledgements(&mut pack);
        let acknowledged = pack.count;
        let ghost first = start.packed_acknowledgements();
        self.pack_resends(&mut pack, Ghost(first.packed));
        let ghost second = start.packed_resends();
        self.pack_commands(&mut pack, now, Ghost(second.packed));
        proof {
            lemma_packing_grows(start, now);
        }
        (pack, acknowledged)
    }

    /// The next datagram that is to leave for the peer at `now`, if there
    /// is one. The send phase asks until there is none.
    #[verifier::rlimit(60)]
    pub fn next_datagram(&mut self, now: u32) -> (out: Option<Outbound>)
        requires
            old(self).wf(),
        ensures
            final(self).wf(),
            match out {
                Some(o) => old(self)@.flush_output(now) == Some(o@),
                None => old(self)@.flush_output(now) is None,
            },
            final(self)@ == old(self)@.after_flush(now),
            old(self)@.state.may_become(final(self)@.state),
            old(self)@.keeps(final(self)@),
    {
        let ghost before = self@;
        if self.outbox.len() > 0 {
            let ghost waiting = self.outbox@;
            proof {
                lemma_outbound_views_remove(waiting, 0);
                assert(outbound_views(waiting).remove(0) =~= outbound_views(waiting).drop_first());
                assert(waiting.remove(0) =~= waiting.subrange(1, waiting.len() as int));
            }
            return self.outbox.pop_front();
        }
        let address = match self.address {
            Some(address) => address,
            None => {
                return None;
            },
        };
        if self.state == PeerState::Disconnected || self.state == PeerState::Zombie {
            return None;
        }
        proof {
            before.counters.lemma_loss_updated(now);
        }
        let (pack, acknowledged) = self.pack(now);
        let ghost result = before.primed(now).packed_commands(now);
        if self.state == PeerState::ConnectionPending && acknowledged > 0 {
            self.state = PeerState::ConnectionSucceeded;
        }
        self.counters.packets_sent = self.counters.packets_sent.wrapping_add(
            (pack.count - acknowledged) as u32,
        );
        let out = if pack.count == 0 {
            None
        } else {
            let (peer_id, session_id) = self.header_ids();
            let header = ProtocolHeader {
                peer_id,
                session_id,
                sent_time: if pack.asks {
                    Some((now % 0x1_0000) as u16)
                } else {
                    None
                },
            };
            let mut bytes: Vec<u8> = Vec::new();
            header.encode(&mut bytes);
            push_all(&mut bytes, pack.bytes.as_slice());
            proof {
                let datagram = before.datagram_of(result.packed, now);
                assert(datagram.header == header);
                assert(bytes@ =~= datagram.bytes());
            }
            self.counters.outgoing_data_total = self.counters.outgoing_data_total.wrapping_add(
                bytes.len() as u32,
            );
            self.session.last_send_time = now;
            Some(Outbound { address, bytes })
        };
        assert(self@ == before.after_packing(now));
        if self.state == PeerState::DisconnectLater && self.outgoing.len() == 0
            && self.staged.len() == 0 && self.sent.len() == 0 {
            let data = self.session.event_data;
            self.begin_disconnect(data);
        }
        out
    }
}

/// Packing never takes a command out of the datagram: behind the
/// acknowledgements come at least as many commands as there are
/// acknowledgements.
proof fn lemma_packing_grows(peer: PeerView, now: u32)
    ensures
        peer.packed_acknowledgements().packed.len() <= peer.packed_resends().packed.len()
            <= peer.packed_commands(now).packed.len(),
{
    lemma_resends_grow(peer.sent, 0, peer.packed_acknowledgements().packed, peer.session.mtu);
    lemma_commands_grow(
        peer.staged + peer.outgoing,
        PackedCommands {
            packed: peer.packed_resends().packed,
            sent: peer.packed_resends().sent,
            staged: Seq::empty(),
            left: Seq::empty(),
            in_transit: peer.counters.reliable_data_in_transit as int,
        },
        peer.window(),
        peer.session.mtu,
        now,
        peer.rtt.spec_timeout(),
    );
}

/// Packing the commands that are due again takes none out of the datagram.
proof fn lemma_resends_grow(sent: Seq<SentView>, i: int, packed: Seq<CommandView>, mtu: u32)
    ensures
        packed.len() <= spec_pack_resends(sent, i, packed, mtu).packed.len(),
    decreases sent.len() - i,
{
    if 0 <= i < sent.len() {
        if !sent[i].resend {
            lemma_resends_grow(sent, i + 1, packed, mtu);
        } else if spec_room(packed, sent[i].command, mtu) {
            lemma_resends_grow(
                sent.update(i, SentView { resend: false, ..sent[i] }),
                i + 1,
                packed.push(sent[i].command),
                mtu,
            );
        }
    }
}

/// Packing the commands that wait to be sent takes none out of the
/// datagram.
proof fn lemma_commands_grow(
    waiting: Seq<CommandView>,
    so_far: PackedCommands,
    window: int,
    mtu: u32,
    now: u32,
    timeout: u32,
)
    ensures
        so_far.packed.len() <= spec_pack_commands(
            waiting,
            so_far,
            window,
            mtu,
            now,
            timeout,
        ).packed.len(),
    decreases waiting.len(),
{
    if waiting.len() > 0 {
        let c = waiting[0];
        if c.header.acknowledge && (so_far.staged.len() > 0 || so_far.in_transit + c.data.len()
            > window) {
            lemma_commands_grow(
                waiting.drop_first(),
                PackedCommands { staged: so_far.staged.push(c), ..so_far },
                window,
                mtu,
                now,
                timeout,
            );
        } else if !spec_room(so_far.packed, c, mtu) {
        } else if c.header.acknowledge {
            lemma_commands_grow(
                waiting.drop_first(),
                PackedCommands {
                    packed: so_far.packed.push(c),
                    sent: so_far.sent.push(
                        SentView {
                            command: c,
                            timing: Retransmission::spec_first(now, timeout),
                            resend: false,
                        },
                    ),
                    in_transit: so_far.in_transit + c.data.len(),
                    ..so_far
                },
                window,
                mtu,
                now,
                timeout,
            );
        } else {
            lemma_commands_grow(
                waiting.drop_first(),
                PackedCommands { packed: so_far.packed.push(c), ..so_far },
                window,
                mtu,
                now,
                timeout,
            );
        }
    }
}

} // verus!
