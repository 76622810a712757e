//! What a peer does with the commands that arrive.

use vstd::prelude::*;
use crate::channel::{byte_views, ChannelView, Deliveries};
use crate::consts::{
    PROTOCOL_MAXIMUM_CHANNEL_COUNT, PROTOCOL_MAXIMUM_MTU, PROTOCOL_MAXIMUM_WINDOW_SIZE,
    PROTOCOL_MINIMUM_CHANNEL_COUNT, PROTOCOL_MINIMUM_MTU, PROTOCOL_MINIMUM_WINDOW_SIZE,
};
use crate::datagram::{command_views, Datagram, DatagramView, ProtocolHeader};
use crate::packet::{Packet, PacketFlags, PacketView};
use crate::peer::control::{
    initial_window, spec_clamp, spec_header_peer, spec_header_session, spec_initial_window,
};
use crate::peer::{
    channel_views, event_views, lemma_channel_views_update, lemma_event_views_push,
    lemma_event_views_remove, lemma_outbound_views_push, lemma_reaches_itself, lemma_reaches_step,
    spec_reaches, Acknowledgement, Counters, Event, EventView, Outbound, OutboundView, Peer,
    PeerState, PeerView, Session,
};
use crate::throttle::{spec_min, Throttle};
use crate::wire::{Command, CommandBody, CommandHeader, CommandView, Handshake};

verus! {

/// The events that hand the given payloads, which came on the given channel
/// of the given peer, to the application.
pub open spec fn spec_receive_events(
    peer: crate::peer::PeerID,
    channel_id: u8,
    payloads: Seq<Seq<u8>>,
    flags: PacketFlags,
) -> Seq<EventView> {
    payloads.map_values(
        |data: Seq<u8>| EventView::Receive { peer, channel_id, packet: PacketView { data, flags } },
    )
}

/// The datagram that acknowledges a command at once: one acknowledgement,
/// without a sent time of its own.
pub open spec fn spec_acknowledging(
    session: Session,
    channel_id: u8,
    sequence: u16,
    sent_time: u16,
) -> DatagramView {
    DatagramView {
        header: ProtocolHeader {
            peer_id: spec_header_peer(session),
            session_id: spec_header_session(session),
            sent_time: None,
        },
        checksum: None,
        commands: seq![
            CommandView {
                header: CommandHeader {
                    acknowledge: false,
                    unsequenced: false,
                    channel_id,
                    reliable_sequence_number: sequence,
                },
                body: CommandBody::Acknowledge {
                    received_reliable_sequence_number: sequence,
                    received_sent_time: sent_time,
                },
                data: Seq::empty(),
            },
        ],
    }
}

impl PeerView {
    /// The peer after a command came on one of its channels and took its
    /// place there, `arrived` being the channel with the command in it:
    /// what the channel can deliver now is handed to the application, the
    /// reliable messages first.
    pub open spec fn with_arrival(self, channel_id: u8, arrived: ChannelView) -> PeerView {
        PeerView {
            channels: self.channels.update(channel_id as int, arrived.after_deliveries()),
            dispatched: self.dispatched + spec_receive_events(
                self.id,
                channel_id,
                arrived.ready_payloads(),
                PacketFlags::spec_reliable(),
            ) + spec_receive_events(
                self.id,
                channel_id,
                arrived.swept_payloads(),
                PacketFlags::spec_unreliable(),
            ),
            ..self
        }
    }

    /// The channel with the given command in it.
    pub open spec fn channel_with(self, command: CommandView) -> ChannelView {
        let channel = self.channels[command.header.channel_id as int];
        let sequence = command.header.reliable_sequence_number;
        match command.body {
            CommandBody::SendReliable => channel.with_reliable(sequence, command.data),
            CommandBody::SendFragment { fragment } => channel.with_fragment(
                fragment.start_sequence_number,
                fragment.fragment_count,
                fragment.fragment_number,
                fragment.total_length,
                fragment.fragment_offset,
                command.data,
            ),
            CommandBody::SendUnreliable { unreliable_sequence_number } => channel.with_unreliable(
                sequence,
                unreliable_sequence_number,
                command.data,
            ),
            CommandBody::SendUnreliableFragment { fragment } => channel.with_unreliable_fragment(
                sequence,
                fragment.start_sequence_number,
                fragment.fragment_count,
                fragment.fragment_number,
                fragment.total_length,
                fragment.fragment_offset,
                command.data,
            ),
            _ => channel,
        }
    }

    /// The peer after a command that carries a payload arrived. A peer
    /// outside the connected family takes none, and none for a channel it
    /// does not have.
    pub open spec fn after_data(self, command: CommandView) -> PeerView {
        if !self.state.spec_in_connected_family() || command.header.channel_id
            >= self.channels.len() {
            self
        } else {
            match command.body {
                CommandBody::SendUnsequenced { unsequenced_group } => PeerView {
                    unsequenced: self.unsequenced.after(unsequenced_group),
                    dispatched: if self.unsequenced.accepts(unsequenced_group) {
                        self.dispatched.push(
                            EventView::Receive {
                                peer: self.id,
                                channel_id: command.header.channel_id,
                                packet: PacketView {
                                    data: command.data,
                                    flags: PacketFlags::spec_unsequenced(),
                                },
                            },
                        )
                    } else {
                        self.dispatched
                    },
                    ..self
                },
                _ => self.with_arrival(command.header.channel_id, self.channel_with(command)),
            }
        }
    }

    /// The peer as a zombie: its queues are emptied and one event says that
    /// the session has ended, with no data.
    pub open spec fn failed(self) -> PeerView {
        PeerView {
            state: PeerState::Zombie,
            dispatched: seq![EventView::Disconnect { peer: self.id, data: 0 }],
            ..self.after_queues_reset()
        }
    }

    /// Whether the answer to a connect fits what the peer asked for: a
    /// legal number of channels, the throttle parameters it sent, and the
    /// nonce of the session.
    pub open spec fn verifies(self, handshake: Handshake) -> bool {
        &&& PROTOCOL_MINIMUM_CHANNEL_COUNT <= handshake.channel_count
            <= PROTOCOL_MAXIMUM_CHANNEL_COUNT
        &&& handshake.packet_throttle_interval == self.throttle.interval
        &&& handshake.packet_throttle_acceleration == self.throttle.acceleration
        &&& handshake.packet_throttle_deceleration == self.throttle.deceleration
        &&& handshake.connect_id == self.session.connect_id
    }

    /// The session after the peer took over what the remote host said of
    /// itself in the handshake: its slot, the bandwidths, and the smaller
    /// MTU and window size of the two, each held within the protocol's
    /// limits.
    pub open spec fn agreed(self, handshake: Handshake) -> Session {
        Session {
            outgoing_peer_id: handshake.outgoing_peer_id % 0x1000,
            mtu: spec_min(
                self.session.mtu as int,
                spec_clamp(
                    handshake.mtu as int,
                    PROTOCOL_MINIMUM_MTU as int,
                    PROTOCOL_MAXIMUM_MTU as int,
                ),
            ) as u32,
            window_size: spec_min(
                self.session.window_size as int,
                spec_clamp(
                    handshake.window_size as int,
                    PROTOCOL_MINIMUM_WINDOW_SIZE as int,
                    PROTOCOL_MAXIMUM_WINDOW_SIZE as int,
                ),
            ) as u32,
            incoming_bandwidth: handshake.incoming_bandwidth,
            outgoing_bandwidth: handshake.outgoing_bandwidth,
            ..self.session
        }
    }

    /// The peer after the answer to its connect arrived. A peer that is not
    /// connecting ignores it; an answer that does not fit makes the peer a
    /// zombie; otherwise the peer takes over the session and its connection
    /// is pending.
    pub open spec fn after_verify_connect(self, handshake: Handshake) -> PeerView {
        if self.state != PeerState::Connecting {
            self
        } else if !self.verifies(handshake) {
            self.failed()
        } else {
            PeerView {
                state: PeerState::ConnectionPending,
                channels: self.channels.take(
                    spec_min(self.channels.len() as int, handshake.channel_count as int),
                ),
                session: Session {
                    incoming_session_id: handshake.incoming_session_id,
                    outgoing_session_id: handshake.outgoing_session_id,
                    ..self.agreed(handshake)
                },
                ..self
            }
        }
    }

    /// The peer after a disconnect command arrived. A disconnected peer or
    /// a zombie ignores it. Any other peer becomes a zombie; where the
    /// command asks for an acknowledgement and can get one, it leaves at
    /// once.
    pub open spec fn after_disconnect_command(
        self,
        header: CommandHeader,
        sent_time: Option<u16>,
    ) -> PeerView {
        if self.state == PeerState::Disconnected || self.state == PeerState::Zombie {
            self
        } else if header.acknowledge && sent_time is Some && self.address is Some {
            PeerView {
                outbox: self.outbox.push(
                    OutboundView {
                        address: self.address->0,
                        bytes: spec_acknowledging(
                            self.session,
                            header.channel_id,
                            header.reliable_sequence_number,
                            sent_time->0,
                        ).bytes(),
                    },
                ),
                ..self.failed()
            }
        } else {
            self.failed()
        }
    }

    /// The peer after the remote host told it of its bandwidths.
    pub open spec fn after_bandwidth_limit(self, incoming: u32, outgoing: u32) -> PeerView {
        if !self.state.spec_in_connected_family() {
            self
        } else {
            PeerView {
                session: Session {
                    incoming_bandwidth: incoming,
                    outgoing_bandwidth: outgoing,
                    window_size: spec_initial_window(incoming),
                    ..self.session
                },
                ..self
            }
        }
    }

    /// The peer after the remote host told it of new throttle parameters.
    pub open spec fn after_throttle_configure(
        self,
        interval: u32,
        acceleration: u32,
        deceleration: u32,
    ) -> PeerView {
        if !self.state.spec_in_connected_family() {
            self
        } else {
            PeerView {
                throttle: Throttle { interval, acceleration, deceleration, ..self.throttle },
                ..self
            }
        }
    }

    /// The peer after it took note that the command with the given header
    /// is to be acknowledged: a command that asks for it, in a datagram
    /// that says when it was sent, is acknowledged by every peer but a
    /// disconnected one and a zombie.
    pub open spec fn with_acknowledgement(self, header: CommandHeader, sent_time: Option<u16>) -> PeerView {
        if header.acknowledge && sent_time is Some && self.state != PeerState::Disconnected
            && self.state != PeerState::Zombie {
            PeerView {
                acknowledgements: self.acknowledgements.push(
                    Acknowledgement {
                        channel_id: header.channel_id,
                        reliable_sequence_number: header.reliable_sequence_number,
                        sent_time: sent_time->0,
                    },
                ),
                ..self
            }
        } else {
            self
        }
    }

    /// The peer after the given command arrived at `now` in a datagram
    /// with the given sent time, before the command is acknowledged. A
    /// command that is not well formed, and a connect, change nothing.
    pub open spec fn after_command(self, command: CommandView, sent_time: Option<u16>, now: u32) -> PeerView {
        if !command.wf() {
            self
        } else {
            match command.body {
                CommandBody::Acknowledge { received_reliable_sequence_number, .. } => self.after_acknowledge(
                    command.header.channel_id,
                    received_reliable_sequence_number,
                    now,
                ),
                CommandBody::Connect { .. } => self,
                CommandBody::VerifyConnect { handshake } => self.after_verify_connect(handshake),
                CommandBody::Disconnect { .. } => self.after_disconnect_command(
                    command.header,
                    sent_time,
                ),
                CommandBody::Ping => self,
                CommandBody::BandwidthLimit { incoming_bandwidth, outgoing_bandwidth } => self.after_bandwidth_limit(
                    incoming_bandwidth,
                    outgoing_bandwidth,
                ),
                CommandBody::ThrottleConfigure { interval, acceleration, deceleration } => self.after_throttle_configure(
                    interval,
                    acceleration,
                    deceleration,
                ),
                _ => self.after_data(command),
            }
        }
    }

    /// The peer after the given command arrived at `now` in a datagram
    /// with the given sent time and was taken note of for acknowledgement.
    pub open spec fn after_handling(self, command: CommandView, sent_time: Option<u16>, now: u32) -> PeerView {
        if command.wf() {
            self.after_command(command, sent_time, now).with_acknowledgement(
                command.header,
                sent_time,
            )
        } else {
            self
        }
    }
}

impl Peer {
    /// Hands the given messages, which came on the given channel, to the
    /// application, in their order.
    fn push_receives(&mut self, channel_id: u8, messages: Vec<Vec<u8>>, reliable: bool)
        requires
            old(self).wf(),
        ensures
            final(self).wf(),
            final(self)@ == (PeerView {
                dispatched: old(self)@.dispatched + spec_receive_events(
                    old(self)@.id,
                    channel_id,
                    byte_views(messages@),
                    if reliable {
                        PacketFlags::spec_reliable()
                    } else {
                        PacketFlags::spec_unreliable()
                    },
                ),
                ..old(self)@
            }),
    {
        let ghost before = self@;
        let ghost all = byte_views(messages@);
        let ghost flags = if reliable {
            PacketFlags::spec_reliable()
        } else {
            PacketFlags::spec_unreliable()
        };
        let mut messages = messages;
        let ghost mut done: int = 0;
        assert(all.skip(0) =~= all);
        assert(before.dispatched + spec_receive_events(before.id, channel_id, all.take(0), flags)
            =~= before.dispatched);
        while messages.len() > 0
            invariant
                self.wf(),
                0 <= done <= all.len(),
                byte_views(messages@) == all.skip(done),
                flags == if reliable {
                    PacketFlags::spec_reliable()
                } else {
                    PacketFlags::spec_unreliable()
                },
                self@ == (PeerView {
                    dispatched: before.dispatched + spec_receive_events(
                        before.id,
                        channel_id,
                        all.take(done),
                        flags,
                    ),
                    ..before
                }),
            decreases messages@.len(),
        {
            let ghost waiting = messages@;
            assert(byte_views(waiting).len() == waiting.len());
            assert(all.skip(done).len() == all.len() - done);
            assert(done < all.len());
            let data = messages.remove(0);
            assert(data@ == all[done]) by {
                assert(byte_views(waiting)[0] == waiting[0]@);
                assert(all.skip(done)[0] == all[done]);
            }
            let packet = if reliable {
                Packet::reliable(data)
            } else {
                Packet::unreliable(data)
            };
            let event = Event::Receive { peer: self.id, channel_id, packet };
            proof {
                lemma_event_views_push(self.dispatched@, event);
                assert(byte_views(messages@) =~= all.skip(done + 1)) by {
                    assert forall|k: int| 0 <= k < messages@.len() implies byte_views(messages@)[k]
                        == all.skip(done + 1)[k] by {
                        assert(messages@[k] == waiting[k + 1]);
                        assert(byte_views(waiting)[k + 1] == waiting[k + 1]@);
                        assert(all.skip(done)[k + 1] == all[done + k + 1]);
                    }
                }
                assert(spec_receive_events(before.id, channel_id, all.take(done + 1), flags)
                    =~= spec_receive_events(before.id, channel_id, all.take(done), flags).push(
                    event@,
                )) by {
                    assert(all.take(done + 1) =~= all.take(done).push(all[done]));
                }
                assert((before.dispatched + spec_receive_events(
                    before.id,
                    channel_id,
                    all.take(done),
                    flags,
                )).push(event@) =~= before.dispatched + spec_receive_events(
                    before.id,
                    channel_id,
                    all.take(done + 1),
                    flags,
                ));
                done = done + 1;
            }
            self.dispatched.push_back(event);
        }
        proof {
            assert(all.take(done) =~= all);
        }
    }

    /// Takes in a command that carries a payload.
    #[verifier::rlimit(50)]
    fn take_data(&mut self, command: Command)
        requires
            old(self).wf(),
            command@.wf(),
            command@.body.spec_carries_data(),
        ensures
            final(self).wf(),
            final(self)@ == old(self)@.after_data(command@),
            final(self)@.state == old(self)@.state,
    {
        let channel_id = command.header.channel_id;
        let at = channel_id as usize;
        if !self.state.in_connected_family() || at >= self.channels.len() {
            return ;
        }
        let sequence = command.header.reliable_sequence_number;
        let ghost before = self@;
        let ghost channels = self.channels@;
        let ghost view = command@;
        assert(channels[at as int].wf());
        assert(channels[at as int]@ == before.channels[at as int]);
        let deliveries = match command.body {
            CommandBody::SendUnsequenced { unsequenced_group } => {
                let taken = self.unsequenced.accept(unsequenced_group);
                if taken {
                    let event = Event::Receive {
                        peer: self.id,
                        channel_id,
                        packet: Packet::unsequenced(command.data),
                    };
                    proof {
                        lemma_event_views_push(self.dispatched@, event);
                    }
                    self.dispatched.push_back(event);
                }
                return ;
            },
            CommandBody::SendReliable => self.channels[at].receive_reliable(sequence, command.data),
            CommandBody::SendFragment { fragment } => self.channels[at].receive_fragment(
                fragment.start_sequence_number,
                fragment.fragment_count,
                fragment.fragment_number,
                fragment.total_length,
                fragment.fragment_offset,
                command.data.as_slice(),
            ),
            CommandBody::SendUnreliable { unreliable_sequence_number } => self.channels[at].receive_unreliable(
                sequence,
                unreliable_sequence_number,
                command.data,
            ),
            CommandBody::SendUnreliableFragment { fragment } => self.channels[at].receive_unreliable_fragment(
                sequence,
                fragment.start_sequence_number,
                fragment.fragment_count,
                fragment.fragment_number,
                fragment.total_length,
                fragment.fragment_offset,
                command.data.as_slice(),
            ),
            _ => {
                return ;
            },
        };
        proof {
            let changed = self.channels@[at as int];
            assert(self.channels@ =~= channels.update(at as int, changed));
            lemma_channel_views_update(channels, at as int, changed);
            assert forall|i: int| 0 <= i < self.channels@.len() implies (
            #[trigger] self.channels@[i]).wf() by {
                if i != at {
                    assert(self.channels@[i] == channels[i]);
                }
            }
            assert(changed@ == before.channel_with(view).after_deliveries());
        }
        let Deliveries { reliable, unreliable } = deliveries;
        self.push_receives(channel_id, reliable, true);
        self.push_receives(channel_id, unreliable, false);
        proof {
            let arrived = before.channel_with(view);
            assert(self@.dispatched =~= before.with_arrival(channel_id, arrived).dispatched);
        }
    }

    /// Makes the peer a zombie whose one event says that the session has
    /// ended.
    pub(crate) fn fail(&mut self)
        requires
            old(self).wf(),
            old(self)@.state != PeerState::Disconnected,
        ensures
            final(self).wf(),
            final(self)@ == old(self)@.failed(),
            old(self)@.state.may_become(final(self)@.state),
            old(self)@.keeps(final(self)@),
    {
        self.reset_queues();
        self.state = PeerState::Zombie;
        let event = Event::Disconnect { peer: self.id, data: 0 };
        proof {
            lemma_event_views_push(self.dispatched@, event);
            assert(Seq::<EventView>::empty().push(event@) =~= seq![event@]);
        }
        self.dispatched.push_back(event);
    }

    /// Takes in the answer to a connect.
    fn verify_connect(&mut self, handshake: &Handshake)
        requires
            old(self).wf(),
        ensures
            final(self).wf(),
            final(self)@ == old(self)@.after_verify_connect(*handshake),
            old(self)@.state.may_become(final(self)@.state),
            old(self)@.keeps(final(self)@),
    {
        if self.state != PeerState::Connecting {
            return ;
        }
        if handshake.channel_count < PROTOCOL_MINIMUM_CHANNEL_COUNT as u32
            || handshake.channel_count > PROTOCOL_MAXIMUM_CHANNEL_COUNT as u32
            || handshake.packet_throttle_interval != self.throttle.interval
            || handshake.packet_throttle_acceleration != self.throttle.acceleration
            || handshake.packet_throttle_deceleration != self.throttle.deceleration
            || handshake.connect_id != self.session.connect_id {
            self.fail();
            return ;
        }
        let ghost before = self@;
        let ghost channels = self.channels@;
        let count = handshake.channel_count as usize;
        if count < self.channels.len() {
            self.channels.truncate(count);
            proof {
                assert(channel_views(self.channels@) =~= before.channels.take(count as int));
            }
        } else {
            proof {
                assert(before.channels.take(before.channels.len() as int) =~= before.channels);
            }
        }
        self.take_over(handshake);
        self.session.incoming_session_id = handshake.incoming_session_id;
        self.session.outgoing_session_id = handshake.outgoing_session_id;
        self.state = PeerState::ConnectionPending;
    }

    /// Takes over what the remote host said of itself in the handshake.
    pub(crate) fn take_over(&mut self, handshake: &Handshake)
        requires
            old(self).wf(),
        ensures
            final(self)@ == (PeerView { session: old(self)@.agreed(*handshake), ..old(self)@ }),
            final(self).wf(),
    {
        let mtu = if handshake.mtu < PROTOCOL_MINIMUM_MTU {
            PROTOCOL_MINIMUM_MTU
        } else if handshake.mtu > PROTOCOL_MAXIMUM_MTU {
            PROTOCOL_MAXIMUM_MTU
        } else {
            handshake.mtu
        };
        let window = if handshake.window_size < PROTOCOL_MINIMUM_WINDOW_SIZE {
            PROTOCOL_MINIMUM_WINDOW_SIZE
        } else if handshake.window_size > PROTOCOL_MAXIMUM_WINDOW_SIZE {
            PROTOCOL_MAXIMUM_WINDOW_SIZE
        } else {
            handshake.window_size
        };
        self.session.outgoing_peer_id = handshake.outgoing_peer_id % 0x1000;
        if mtu < self.session.mtu {
            self.session.mtu = mtu;
        }
        if window < self.session.window_size {
            self.session.window_size = window;
        }
        self.session.incoming_bandwidth = handshake.incoming_bandwidth;
        self.session.outgoing_bandwidth = handshake.outgoing_bandwidth;
    }

    /// Takes in a disconnect command.
    fn disconnect_command(&mut self, header: &CommandHeader, sent_time: Option<u16>)
        requires
            old(self).wf(),
        ensures
            final(self).wf(),
            final(self)@ == old(self)@.after_disconnect_command(*header, sent_time),
            old(self)@.state.may_become(final(self)@.state),
            old(self)@.keeps(final(self)@),
    {
        if self.state == PeerState::Disconnected || self.state == PeerState::Zombie {
            return ;
        }
        let mut notice: Option<Outbound> = None;
        if header.acknowledge {
            match (sent_time, self.address) {
                (Some(time), Some(address)) => {
                    let (peer_id, session_id) = self.header_ids();
                    let command = Command {
                        header: CommandHeader {
                            acknowledge: false,
                            unsequenced: false,
                            channel_id: header.channel_id,
                            reliable_sequence_number: header.reliable_sequence_number,
                        },
                        body: CommandBody::Acknowledge {
                            received_reliable_sequence_number: header.reliable_sequence_number,
                            received_sent_time: time,
                        },
                        data: Vec::new(),
                    };
                    let mut commands: Vec<Command> = Vec::new();
                    commands.push(command);
                    let datagram = Datagram {
                        header: ProtocolHeader { peer_id, session_id, sent_time: None },
                        checksum: None,
                        commands,
                    };
                    proof {
                        assert(command@.data =~= Seq::empty());
                        assert(datagram@.commands =~= seq![command@]);
                        assert(datagram@ == spec_acknowledging(
                            self@.session,
                            header.channel_id,
                            header.reliable_sequence_number,
                            time,
                        ));
                    }
                    notice = Some(Outbound { address, bytes: datagram.encode() });
                },
                _ => {},
            }
        }
        self.fail();
        match notice {
            Some(outbound) => {
                proof {
                    lemma_outbound_views_push(self.outbox@, outbound);
                }
                self.outbox.push_back(outbound);
            },
            None => {},
        }
    }

    /// Takes in one command that arrived at `now` in a datagram with the
    /// given sent time, and takes note of it for acknowledgement. A connect
    /// is not for a peer to take in: see [`Peer::accept`].
    pub fn handle(&mut self, command: Command, sent_time: Option<u16>, now: u32)
        requires
            old(self).wf(),
        ensures
            final(self).wf(),
            final(self)@ == old(self)@.after_handling(command@, sent_time, now),
            old(self)@.state.may_become(final(self)@.state),
            old(self)@.keeps(final(self)@),
    {
        if !command.is_well_formed() {
            return ;
        }
        let header = command.header;
        match command.body {
            CommandBody::Acknowledge { received_reliable_sequence_number, .. } => {
                self.acknowledge(header.channel_id, received_reliable_sequence_number, now);
            },
            CommandBody::Connect { .. } => {},
            CommandBody::VerifyConnect { handshake } => {
                self.verify_connect(&handshake);
            },
            CommandBody::Disconnect { .. } => {
                self.disconnect_command(&header, sent_time);
            },
            CommandBody::Ping => {},
            CommandBody::BandwidthLimit { incoming_bandwidth, outgoing_bandwidth } => {
                if self.state.in_connected_family() {
                    self.session.incoming_bandwidth = incoming_bandwidth;
                    self.session.outgoing_bandwidth = outgoing_bandwidth;
                    self.session.window_size = initial_window(incoming_bandwidth);
                }
            },
            CommandBody::ThrottleConfigure { interval, acceleration, deceleration } => {
                if self.state.in_connected_family() {
                    self.throttle.configure(interval, acceleration, deceleration);
                }
            },
            _ => {
                self.take_data(command);
            },
        }
        self.note_acknowledgement(&header, sent_time);
    }

    /// Takes note that the command with the given header, which came in a
    /// datagram with the given sent time, is to be acknowledged.
    pub fn note_acknowledgement(&mut self, header: &CommandHeader, sent_time: Option<u16>)
        requires
            old(self).wf(),
        ensures
            final(self).wf(),
            final(self)@ == old(self)@.with_acknowledgement(*header, sent_time),
            final(self)@.state == old(self)@.state,
            old(self)@.keeps(final(self)@),
    {
        if header.acknowledge && self.state != PeerState::Disconnected && self.state
            != PeerState::Zombie {
            match sent_time {
                Some(time) => {
                    self.acknowledgements.push_back(
                        Acknowledgement {
                            channel_id: header.channel_id,
                            reliable_sequence_number: header.reliable_sequence_number,
                            sent_time: time,
                        },
                    );
                },
                None => {},
            }
        }
    }
}

/// The peer after the given commands arrived one after the other.
pub open spec fn spec_handle_all(
    peer: PeerView,
    commands: Seq<CommandView>,
    sent_time: Option<u16>,
    now: u32,
) -> PeerView
    decreases commands.len(),
{
    if commands.len() == 0 {
        peer
    } else {
        spec_handle_all(
            peer.after_handling(commands[0], sent_time, now),
            commands.drop_first(),
            sent_time,
            now,
        )
    }
}

impl PeerView {
    /// Whether the peer takes the given commands in: each acknowledgement
    /// among them lies in the sliding window.
    pub open spec fn takes_in(self, commands: Seq<CommandView>) -> bool {
        forall|i: int|
            0 <= i < commands.len() ==> ((#[trigger] commands[i]).body matches CommandBody::Acknowledge {
                received_reliable_sequence_number,
                ..
            } ==> self.acknowledgeable(
                commands[i].header.channel_id,
                received_reliable_sequence_number,
            ))
    }

    /// The peer after a datagram of `length` bytes with the given commands
    /// arrived at `now`. A datagram that the peer does not take in changes
    /// nothing; otherwise its bytes are counted and its commands handled in
    /// their order.
    pub open spec fn after_datagram(self, datagram: DatagramView, length: u32, now: u32) -> PeerView {
        if !self.takes_in(datagram.commands) {
            self
        } else {
            spec_handle_all(
                PeerView {
                    counters: Counters {
                        incoming_data_total: ((self.counters.incoming_data_total + length)
                            % 0x1_0000_0000) as u32,
                        ..self.counters
                    },
                    ..self
                },
                datagram.commands,
                datagram.header.sent_time,
                now,
            )
        }
    }

    /// The peer after the application asked for the next event: a peer
    /// whose connection has succeeded becomes connected and says so;
    /// otherwise the first event that waits is handed out, and a zombie
    /// that hands out the end of its session is reset.
    pub open spec fn after_poll(self) -> PeerView {
        if self.state == PeerState::ConnectionSucceeded {
            PeerView { state: PeerState::Connected, ..self }
        } else if self.dispatched.len() == 0 {
            self
        } else if self.state == PeerState::Zombie && self.dispatched[0] is Disconnect {
            self.cleared()
        } else {
            PeerView { dispatched: self.dispatched.drop_first(), ..self }
        }
    }

    /// The event that the application gets when it asks for the next one.
    pub open spec fn polled(self) -> Option<EventView> {
        if self.state == PeerState::ConnectionSucceeded {
            Some(EventView::Connect { peer: self.id, data: self.session.event_data })
        } else if self.dispatched.len() == 0 {
            None
        } else {
            Some(self.dispatched[0])
        }
    }
}

impl Peer {
    /// Whether the peer takes the given commands in.
    fn checks(&self, commands: &Vec<Command>) -> (r: bool)
        requires
            self.wf(),
        ensures
            r == self@.takes_in(command_views(commands@)),
    {
        let ghost views = command_views(commands@);
        let mut i: usize = 0;
        while i < commands.len()
            invariant
                i <= commands@.len(),
                self.wf(),
                views == command_views(commands@),
                forall|k: int|
                    0 <= k < i ==> ((#[trigger] views[k]).body matches CommandBody::Acknowledge {
                        received_reliable_sequence_number,
                        ..
                    } ==> self@.acknowledgeable(
                        views[k].header.channel_id,
                        received_reliable_sequence_number,
                    )),
            decreases commands@.len() - i,
        {
            let command = &commands[i];
            assert(command@ == views[i as int]);
            match command.body {
                CommandBody::Acknowledge { received_reliable_sequence_number, .. } => {
                    if !self.can_acknowledge(
                        command.header.channel_id,
                        received_reliable_sequence_number,
                    ) {
                        return false;
                    }
                },
                _ => {},
            }
            i = i + 1;
        }
        true
    }

    /// Takes in a datagram of `length` bytes that arrived at `now`. Returns
    /// whether it did: a datagram with an acknowledgement outside the
    /// sliding window is refused as a whole.
    pub fn receive(&mut self, datagram: Datagram, length: u32, now: u32) -> (taken: bool)
        requires
            old(self).wf(),
        ensures
            final(self).wf(),
            taken == old(self)@.takes_in(datagram@.commands),
            final(self)@ == old(self)@.after_datagram(datagram@, length, now),
            spec_reaches(old(self)@.state, final(self)@.state),
            old(self)@.keeps(final(self)@),
    {
        proof {
            lemma_reaches_itself(self@.state);
        }
        if !self.checks(&datagram.commands) {
            return false;
        }
        let ghost before = self@;
        let ghost all = datagram@.commands;
        let sent_time = datagram.header.sent_time;
        self.counters.incoming_data_total = self.counters.incoming_data_total.wrapping_add(length);
        let mut commands = datagram.commands;
        while commands.len() > 0
            invariant
                self.wf(),
                spec_reaches(before.state, self@.state),
                before.keeps(self@),
                spec_handle_all(self@, command_views(commands@), sent_time, now)
                    == before.after_datagram(datagram@, length, now),
            decreases commands@.len(),
        {
            let ghost waiting = commands@;
            let ghost state = self@.state;
            let command = commands.remove(0);
            proof {
                assert(command_views(waiting)[0] == command@);
                assert(command_views(commands@) =~= command_views(waiting).drop_first());
            }
            self.handle(command, sent_time, now);
            proof {
                lemma_reaches_step(before.state, state, self@.state);
            }
        }
        true
    }

    /// Hands the next event to the application, if there is one.
    pub fn poll_event(&mut self) -> (event: Option<Event>)
        requires
            old(self).wf(),
        ensures
            final(self).wf(),
            match event {
                Some(e) => old(self)@.polled() == Some(e@),
                None => old(self)@.polled() is None,
            },
            final(self)@ == old(self)@.after_poll(),
            old(self)@.state.may_become(final(self)@.state),
            old(self)@.keeps(final(self)@),
    {
        if self.state == PeerState::ConnectionSucceeded {
            self.state = PeerState::Connected;
            return Some(Event::Connect { peer: self.id, data: self.session.event_data });
        }
        let ghost waiting = self.dispatched@;
        proof {
            if waiting.len() > 0 {
                lemma_event_views_remove(waiting, 0);
                assert(event_views(waiting).remove(0) =~= event_views(waiting).drop_first());
                assert(waiting.remove(0) =~= waiting.subrange(1, waiting.len() as int));
            }
        }
        match self.dispatched.pop_front() {
            None => None,
            Some(event) => {
                let ended = match event {
                    Event::Disconnect { .. } => true,
                    _ => false,
                };
                if ended && self.state == PeerState::Zombie {
                    self.clear();
                }
                Some(event)
            },
        }
    }
}

} // verus!
