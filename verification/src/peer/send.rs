//! Queueing application messages.

use vstd::prelude::*;
use crate::bytes::copy_range;
use crate::channel::{spec_advance, ChannelView, RELIABLE_WINDOW};
use crate::consts::{FRAGMENT_OVERHEAD, PEER_QUEUE_LIMIT, PROTOCOL_MAXIMUM_PACKET_SIZE};
use crate::fragment::{fragment_count, lemma_piece_bounds, spec_fragment_count, spec_piece};
use crate::packet::{Packet, PacketFlags, PacketView};
use crate::peer::{lemma_all_wf_push, lemma_command_views_push, Counters, Peer, PeerView};
use crate::wire::{Command, CommandBody, CommandHeader, CommandView, FragmentInfo};

verus! {

/// Why a message was not queued.
#[derive(Debug, Clone, Copy, PartialEq, Eq)]
pub enum PeerSendError {
    /// The peer is not in the connected family of states.
    PeerNotConnected,
    /// The channel is none of the peer's.
    InvalidChannel,
    /// The payload exceeds the protocol's maximum.
    PacketTooLarge,
    /// The packet is flagged reliable and unsequenced at once.
    InvalidPacketFlags,
    /// The outgoing queues of the peer would overflow, or the message would
    /// take up more reliable sequence numbers than the window holds.
    ///
    /// A reliable message takes one sequence number for each of its pieces,
    /// and a receiver tells new numbers from old ones only within the
    /// window. A message of more pieces than that could never be put
    /// together at the other end, however long its pieces were held back,
    /// so it is refused here and nothing of it is queued.
    FailedToQueue,
}

/// The way a message travels.
#[derive(Debug, Clone, Copy, PartialEq, Eq)]
pub enum Carriage {
    /// In reliable commands, in sequence.
    Reliable,
    /// In unreliable commands, in sequence.
    Unreliable,
    /// In an unsequenced command.
    Unsequenced,
}

/// Largest payload, in bytes, that one command carries at the given MTU.
pub open spec fn spec_fragment_length(mtu: u32) -> int {
    mtu - FRAGMENT_OVERHEAD
}

/// Number of commands that a payload of `length` bytes travels in at the
/// given MTU: one if it fits a command, one for each fragment otherwise.
pub open spec fn spec_command_count(length: int, mtu: u32) -> int {
    if length <= spec_fragment_length(mtu) {
        1
    } else {
        spec_fragment_count(length, spec_fragment_length(mtu))
    }
}

/// The way a message with the given flags travels on a channel: reliably if
/// it is flagged reliable, if the channel has run out of unreliable sequence
/// numbers, or if it has to be cut and is not flagged for unreliable
/// fragments; unsequenced if it is flagged so and fits one command;
/// unreliably otherwise.
pub open spec fn spec_carriage(flags: PacketFlags, channel: ChannelView, fragmented: bool) -> Carriage {
    if flags.reliable {
        Carriage::Reliable
    } else if fragmented {
        if flags.unreliable_fragment && channel.outgoing_unreliable_sequence_number < 0xFFFF {
            Carriage::Unreliable
        } else {
            Carriage::Reliable
        }
    } else if flags.unsequenced {
        Carriage::Unsequenced
    } else if channel.outgoing_unreliable_sequence_number >= 0xFFFF {
        Carriage::Reliable
    } else {
        Carriage::Unreliable
    }
}

/// Command `i` of the commands that carry a message.
pub open spec fn spec_send_command(
    carriage: Carriage,
    channel_id: u8,
    channel: ChannelView,
    group: u16,
    payload: Seq<u8>,
    length: int,
    count: int,
    i: int,
) -> CommandView {
    let whole = count == 1 && payload.len() <= length;
    let data = if whole {
        payload
    } else {
        spec_piece(payload, length, i)
    };
    match carriage {
        Carriage::Reliable => CommandView {
            header: CommandHeader {
                acknowledge: true,
                unsequenced: false,
                channel_id,
                reliable_sequence_number: spec_advance(
                    channel.outgoing_reliable_sequence_number,
                    i + 1,
                ),
            },
            body: if whole {
                CommandBody::SendReliable
            } else {
                CommandBody::SendFragment {
                    fragment: FragmentInfo {
                        start_sequence_number: spec_advance(
                            channel.outgoing_reliable_sequence_number,
                            1,
                        ),
                        fragment_count: count as u32,
                        fragment_number: i as u32,
                        total_length: payload.len() as u32,
                        fragment_offset: (i * length) as u32,
                    },
                }
            },
            data,
        },
        Carriage::Unreliable => CommandView {
            header: CommandHeader {
                acknowledge: false,
                unsequenced: false,
                channel_id,
                reliable_sequence_number: channel.outgoing_reliable_sequence_number,
            },
            body: if whole {
                CommandBody::SendUnreliable {
                    unreliable_sequence_number: spec_advance(
                        channel.outgoing_unreliable_sequence_number,
                        1,
                    ),
                }
            } else {
                CommandBody::SendUnreliableFragment {
                    fragment: FragmentInfo {
                        start_sequence_number: spec_advance(
                            channel.outgoing_unreliable_sequence_number,
                            1,
                        ),
                        fragment_count: count as u32,
                        fragment_number: i as u32,
                        total_length: payload.len() as u32,
                        fragment_offset: (i * length) as u32,
                    },
                }
            },
            data,
        },
        Carriage::Unsequenced => CommandView {
            header: CommandHeader {
                acknowledge: false,
                unsequenced: true,
                channel_id,
                reliable_sequence_number: 0,
            },
            body: CommandBody::SendUnsequenced { unsequenced_group: spec_advance(group, 1) },
            data,
        },
    }
}

impl PeerView {
    /// Number of commands that the given payload travels in.
    pub open spec fn send_count(self, packet: PacketView) -> int {
        spec_command_count(packet.data.len() as int, self.session.mtu)
    }

    /// The way the given packet travels on the given channel.
    pub open spec fn send_carriage(self, channel_id: u8, packet: PacketView) -> Carriage {
        spec_carriage(
            packet.flags,
            self.channels[channel_id as int],
            packet.data.len() > spec_fragment_length(self.session.mtu),
        )
    }

    /// Why the given packet is not queued on the given channel, if it is
    /// not. The reasons are tried in the order in which they are listed.
    pub open spec fn send_error(self, channel_id: u8, packet: PacketView) -> Option<PeerSendError> {
        if !self.state.spec_in_connected_family() {
            Some(PeerSendError::PeerNotConnected)
        } else if channel_id >= self.channels.len() {
            Some(PeerSendError::InvalidChannel)
        } else if packet.data.len() > PROTOCOL_MAXIMUM_PACKET_SIZE {
            Some(PeerSendError::PacketTooLarge)
        } else if !packet.flags.legal() {
            Some(PeerSendError::InvalidPacketFlags)
        } else if self.outgoing.len() + self.staged.len() + self.send_count(packet)
            > PEER_QUEUE_LIMIT || (self.send_carriage(channel_id, packet) == Carriage::Reliable
            && self.send_count(packet) > RELIABLE_WINDOW) {
            Some(PeerSendError::FailedToQueue)
        } else {
            None
        }
    }

    /// Whether the throttle drops the given packet before it is queued: it
    /// does not travel reliably, and the throttle does not let it through.
    pub open spec fn send_drops(self, channel_id: u8, packet: PacketView) -> bool {
        self.send_carriage(channel_id, packet) != Carriage::Reliable
            && !self.throttle.spec_lets_through()
    }

    /// The commands that carry the given packet on the given channel.
    pub open spec fn send_commands(self, channel_id: u8, packet: PacketView) -> Seq<CommandView> {
        Seq::new(
            self.send_count(packet) as nat,
            |i: int|
                spec_send_command(
                    self.send_carriage(channel_id, packet),
                    channel_id,
                    self.channels[channel_id as int],
                    self.unsequenced_group,
                    packet.data,
                    spec_fragment_length(self.session.mtu),
                    self.send_count(packet),
                    i,
                ),
        )
    }

    /// The peer after the application asked to send the given packet on the
    /// given channel.
    ///
    /// Where the request is refused nothing changes. A packet that does not
    /// travel reliably passes the throttle first; if the throttle drops it,
    /// one more packet counts as lost and nothing is queued. Otherwise the
    /// commands that carry the packet join the outgoing ones and the
    /// sequence numbers they took are used up.
    pub open spec fn after_send(self, channel_id: u8, packet: PacketView) -> PeerView {
        let carriage = self.send_carriage(channel_id, packet);
        let throttle = if carriage == Carriage::Reliable {
            self.throttle
        } else {
            self.throttle.spec_after_packet()
        };
        if self.send_error(channel_id, packet) is Some {
            self
        } else if self.send_drops(channel_id, packet) {
            PeerView {
                throttle,
                counters: Counters {
                    packets_lost: if self.counters.packets_lost == u32::MAX {
                        u32::MAX
                    } else {
                        (self.counters.packets_lost + 1) as u32
                    },
                    ..self.counters
                },
                ..self
            }
        } else {
            let channel = self.channels[channel_id as int];
            PeerView {
                throttle,
                outgoing: self.outgoing + self.send_commands(channel_id, packet),
                unsequenced_group: if carriage == Carriage::Unsequenced {
                    spec_advance(self.unsequenced_group, 1)
                } else {
                    self.unsequenced_group
                },
                channels: self.channels.update(
                    channel_id as int,
                    match carriage {
                        Carriage::Reliable => channel.after_reliable_sends(self.send_count(packet)),
                        Carriage::Unreliable => channel.after_unreliable_send(),
                        Carriage::Unsequenced => channel,
                    },
                ),
                ..self
            }
        }
    }
}

/// What `send` has decided about a packet before it queues anything.
struct Plan {
    carriage: Carriage,
    count: usize,
    length: usize,
}

impl Peer {
    /// Decides how the given packet travels, or why it does not.
    fn plan(&self, channel_id: u8, packet: &Packet) -> (r: Result<Plan, PeerSendError>)
        requires
            self.wf(),
        ensures
            match r {
                Ok(plan) => {
                    &&& self@.send_error(channel_id, packet@) is None
                    &&& plan.carriage == self@.send_carriage(channel_id, packet@)
                    &&& plan.count == self@.send_count(packet@)
                    &&& plan.length == spec_fragment_length(self@.session.mtu)
                    &&& 1 <= plan.count <= PEER_QUEUE_LIMIT
                    &&& 0 < plan.length <= 0xFFFF
                },
                Err(e) => self@.send_error(channel_id, packet@) == Some(e),
            },
    {
        if !self.state.in_connected_family() {
            return Err(PeerSendError::PeerNotConnected);
        }
        if channel_id as usize >= self.channels.len() {
            return Err(PeerSendError::InvalidChannel);
        }
        let total = packet.len();
        if total > PROTOCOL_MAXIMUM_PACKET_SIZE {
            return Err(PeerSendError::PacketTooLarge);
        }
        let flags = packet.flags();
        if !flags.is_legal() {
            return Err(PeerSendError::InvalidPacketFlags);
        }
        let length = (self.session.mtu - FRAGMENT_OVERHEAD) as usize;
        let fragmented = total > length;
        let count = if fragmented {
            fragment_count(total, length)
        } else {
            1
        };
        let channel = &self.channels[channel_id as usize];
        assert(channel@ == self@.channels[channel_id as int]);
        let exhausted = channel.outgoing_unreliable_sequence_number() >= 0xFFFF;
        let carriage = if flags.reliable {
            Carriage::Reliable
        } else if fragmented {
            if flags.unreliable_fragment && !exhausted {
                Carriage::Unreliable
            } else {
                Carriage::Reliable
            }
        } else if flags.unsequenced {
            Carriage::Unsequenced
        } else if exhausted {
            Carriage::Reliable
        } else {
            Carriage::Unreliable
        };
        let queued = self.outgoing.len();
        let held = self.staged.len();
        if queued > PEER_QUEUE_LIMIT || held > PEER_QUEUE_LIMIT - queued || count
            > PEER_QUEUE_LIMIT - queued - held {
            return Err(PeerSendError::FailedToQueue);
        }
        let reliable = match carriage {
            Carriage::Reliable => true,
            _ => false,
        };
        if reliable && count > RELIABLE_WINDOW as usize {
            return Err(PeerSendError::FailedToQueue);
        }
        proof {
            if fragmented {
                let t = total as int;
                let l = length as int;
                assert((t + l - 1) / l >= 1) by (nonlinear_arith)
                    requires
                        0 < l,
                        l < t,
                ;
            }
        }
        Ok(Plan { carriage, count, length })
    }

    /// Queues a packet to be sent to this peer on the specified channel.
    ///
    /// A packet that does not travel reliably may be dropped by the
    /// throttle before it is queued; it then counts as lost. A packet that
    /// travels reliably is queued whole: its commands wait in the queue
    /// until the window has room for them, and a packet of more pieces
    /// than the window has numbers is refused.
    ///
    /// # Errors
    ///
    /// May return any of the [`PeerSendError`] variants on failure; nothing
    /// changes then.
    #[verifier::rlimit(50)]
    pub fn send(&mut self, channel_id: u8, packet: &Packet) -> (r: Result<(), PeerSendError>)
        requires
            old(self).wf(),
        ensures
            final(self).wf(),
            r == match old(self)@.send_error(channel_id, packet@) {
                Some(e) => Err::<(), PeerSendError>(e),
                None => Ok(()),
            },
            final(self)@ == old(self)@.after_send(channel_id, packet@),
            final(self)@.state == old(self)@.state,
            old(self)@.keeps(final(self)@),
    {
        let plan = match self.plan(channel_id, packet) {
            Ok(plan) => plan,
            Err(e) => {
                return Err(e);
            },
        };
        let ghost before = self@;
        let reliable = match plan.carriage {
            Carriage::Reliable => true,
            _ => false,
        };
        if !reliable {
            let through = self.throttle.gate();
            if !through {
                self.counters.packets_lost = self.counters.packets_lost.saturating_add(1);
                return Ok(());
            }
        }
        let at = channel_id as usize;
        let ghost channels = self.channels@;
        let mut first_reliable: u16 = 0;
        let mut extra: u16 = 0;
        assert(channels[at as int].wf());
        assert(channels[at as int]@ == before.channels[at as int]);
        match plan.carriage {
            Carriage::Reliable => {
                first_reliable = self.channels[at].next_reliable_run(plan.count as u16);
            },
            Carriage::Unreliable => {
                extra = self.channels[at].next_unreliable();
                first_reliable = self.channels[at].outgoing_reliable_sequence_number();
            },
            Carriage::Unsequenced => {
                self.unsequenced_group = self.unsequenced_group.wrapping_add(1);
                extra = self.unsequenced_group;
            },
        }
        proof {
            let changed = self.channels@[at as int];
            assert(self.channels@ =~= channels.update(at as int, changed));
            crate::peer::lemma_channel_views_update(channels, at as int, changed);
            assert forall|i: int| 0 <= i < self.channels@.len() implies (
            #[trigger] self.channels@[i]).wf() by {
                if i != at {
                    assert(self.channels@[i] == channels[i]);
                }
            }
        }
        let ghost numbered = self@;
        let data = packet.data();
        let total = data.len();
        let whole = plan.count == 1 && total <= plan.length;
        let mut i: usize = 0;
        let mut start: usize = 0;
        assert(before.outgoing + Seq::<CommandView>::empty() =~= before.outgoing);
        while i < plan.count
            invariant
                i <= plan.count,
                self.wf(),
                total == packet@.data.len(),
                data@ == packet@.data,
                total <= PROTOCOL_MAXIMUM_PACKET_SIZE,
                before.send_error(channel_id, packet@) is None,
                plan.carriage == before.send_carriage(channel_id, packet@),
                plan.count == before.send_count(packet@),
                plan.length == spec_fragment_length(before.session.mtu),
                1 <= plan.count <= PEER_QUEUE_LIMIT,
                before.outgoing.len() + before.staged.len() + plan.count <= PEER_QUEUE_LIMIT,
                whole == (plan.count == 1 && total <= plan.length),
                whole || start == i * plan.length || (i == plan.count && start == total),
                whole ==> start == 0 || i == plan.count,
                start <= total,
                whole || plan.count == spec_fragment_count(total as int, plan.length as int),
                0 < plan.length <= 0xFFFF,
                numbered.state.spec_in_connected_family(),
                first_reliable == match plan.carriage {
                    Carriage::Reliable => spec_advance(
                        before.channels[at as int].outgoing_reliable_sequence_number,
                        1,
                    ),
                    Carriage::Unreliable => before.channels[at as int].outgoing_reliable_sequence_number,
                    Carriage::Unsequenced => 0,
                },
                extra == match plan.carriage {
                    Carriage::Reliable => 0,
                    Carriage::Unreliable => spec_advance(
                        before.channels[at as int].outgoing_unreliable_sequence_number,
                        1,
                    ),
                    Carriage::Unsequenced => spec_advance(before.unsequenced_group, 1),
                },
                at == channel_id,
                at < before.channels.len(),
                self@ == (PeerView {
                    outgoing: before.outgoing + Seq::new(
                        i as nat,
                        |k: int|
                            spec_send_command(
                                plan.carriage,
                                channel_id,
                                before.channels[at as int],
                                before.unsequenced_group,
                                packet@.data,
                                plan.length as int,
                                plan.count as int,
                                k,
                            ),
                    ),
                    ..numbered
                }),
                numbered.outgoing == before.outgoing,
            decreases plan.count - i,
        {
            let ghost queued = self.outgoing@;
            let ghost views = self@.outgoing;
            let mut end: usize = total;
            if !whole {
                proof {
                    lemma_piece_bounds(total as int, plan.length as int, i as int);
                }
                if total - start > plan.length {
                    end = start + plan.length;
                }
            }
            let piece = copy_range(data, start, end);
            let fragment = FragmentInfo {
                start_sequence_number: match plan.carriage {
                    Carriage::Reliable => first_reliable,
                    _ => extra,
                },
                fragment_count: plan.count as u32,
                fragment_number: i as u32,
                total_length: total as u32,
                fragment_offset: start as u32,
            };
            let command = match plan.carriage {
                Carriage::Reliable => Command {
                    header: CommandHeader {
                        acknowledge: true,
                        unsequenced: false,
                        channel_id,
                        reliable_sequence_number: first_reliable.wrapping_add(i as u16),
                    },
                    body: if whole {
                        CommandBody::SendReliable
                    } else {
                        CommandBody::SendFragment { fragment }
                    },
                    data: piece,
                },
                Carriage::Unreliable => Command {
                    header: CommandHeader {
                        acknowledge: false,
                        unsequenced: false,
                        channel_id,
                        reliable_sequence_number: first_reliable,
                    },
                    body: if whole {
                        CommandBody::SendUnreliable { unreliable_sequence_number: extra }
                    } else {
                        CommandBody::SendUnreliableFragment { fragment }
                    },
                    data: piece,
                },
                Carriage::Unsequenced => Command {
                    header: CommandHeader {
                        acknowledge: false,
                        unsequenced: true,
                        channel_id,
                        reliable_sequence_number: 0,
                    },
                    body: CommandBody::SendUnsequenced { unsequenced_group: extra },
                    data: piece,
                },
            };
            proof {
                let expected = spec_send_command(
                    plan.carriage,
                    channel_id,
                    before.channels[at as int],
                    before.unsequenced_group,
                    packet@.data,
                    plan.length as int,
                    plan.count as int,
                    i as int,
                );
                if whole {
                    assert(data@.subrange(0, total as int) =~= data@);
                }
                assert(command@.data == expected.data);
                assert(command@ == expected);
                assert(command@.wf());
                lemma_command_views_push(queued, command);
                lemma_all_wf_push(views, command@);
                let so_far = Seq::new(
                    i as nat,
                    |k: int|
                        spec_send_command(
                            plan.carriage,
                            channel_id,
                            before.channels[at as int],
                            before.unsequenced_group,
                            packet@.data,
                            plan.length as int,
                            plan.count as int,
                            k,
                        ),
                );
                let further = Seq::new(
                    (i + 1) as nat,
                    |k: int|
                        spec_send_command(
                            plan.carriage,
                            channel_id,
                            before.channels[at as int],
                            before.unsequenced_group,
                            packet@.data,
                            plan.length as int,
                            plan.count as int,
                            k,
                        ),
                );
                assert((before.outgoing + so_far).push(expected) =~= before.outgoing + further);
            }
            self.outgoing.push_back(command);
            start = end;
            i = i + 1;
        }
        proof {
            assert(self@.outgoing =~= before.outgoing + before.send_commands(channel_id, packet@));
            assert(self@ == before.after_send(channel_id, packet@));
        }
        Ok(())
    }
}

} // verus!
