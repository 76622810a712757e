//! What is sent is what arrives: the sending peer and the receiving peer
//! taken together.
//!
//! The network between two peers may lose, repeat and reorder datagrams.
//! The laws of this module say nothing of which commands arrive; they say
//! what the receiving peer hands to its application whichever do.

use vstd::prelude::*;
use crate::channel::ordering::{
    lemma_reliable_delivery_in_order, spec_faithful, spec_sequence_of,
};
use crate::channel::reassembly::{lemma_fragments_restore_message, spec_feed, spec_with_piece};
use crate::channel::{spec_advance, spec_is_fresh, IncomingView, RELIABLE_WINDOW};
use crate::fragment::{lemma_piece_bounds, spec_fragment_count};
use crate::packet::{PacketFlags, PacketView};
use crate::peer::laws::lemma_fragments_are_pieces;
use crate::peer::receive::spec_receive_events;
use crate::peer::send::{spec_fragment_length, Carriage};
use crate::peer::{EventView, PeerView};
use crate::wire::CommandView;

verus! {

/// Reliable packets arrive in the order in which they were sent, each once.
///
/// Let the application of the sender have queued the messages of a stream
/// on a channel, one reliable packet after the other, each small enough for
/// one command; `packet` is message `number` of them, queued when the
/// channel had given out `number - 1` sequence numbers. Let the receiver be
/// in the connected family of states and a faithful receiver of the stream,
/// of which it has handed `delivered` messages to its application.
///
/// Then the sender gives the packet the sequence number of message
/// `number`, and the next packet that of the next message. And when the
/// command that carries the packet reaches the receiver, for the first time
/// or again, early or late, the events that the receiver adds for its
/// application are the messages of the stream that follow the ones
/// delivered, in their order and without a gap, and behind them only
/// unreliable messages that have waited for them. The receiver is a
/// faithful receiver still: whatever the network does, the reliable
/// messages that the application receives on the channel are at every
/// moment the beginning of what was sent.
pub proof fn lemma_reliable_packets_arrive_in_order(
    sender: PeerView,
    receiver: PeerView,
    channel_id: u8,
    packet: PacketView,
    stream: Seq<Seq<u8>>,
    delivered: int,
    number: int,
    sent_time: Option<u16>,
    now: u32,
)
    requires
        1 <= number <= stream.len(),
        packet.flags.reliable,
        packet.data == stream[number - 1],
        packet.data.len() <= spec_fragment_length(sender.session.mtu),
        sender.session.wf(),
        sender.send_error(channel_id, packet) is None,
        sender.channels[channel_id as int].outgoing_reliable_sequence_number == spec_sequence_of(
            number - 1,
        ),
        receiver.state.spec_in_connected_family(),
        channel_id < receiver.channels.len(),
        spec_faithful(receiver.channels[channel_id as int], stream, delivered),
        delivered - 0x8000 < number <= delivered + RELIABLE_WINDOW,
    ensures
        ({
            let commands = sender.send_commands(channel_id, packet);
            let arrived = receiver.channel_with(commands[0]);
            let after = receiver.after_handling(commands[0], sent_time, now);
            let count = arrived.ready();
            &&& commands.len() == 1
            &&& sender.after_send(channel_id, packet).outgoing == sender.outgoing + commands
            &&& sender.after_send(
                channel_id,
                packet,
            ).channels[channel_id as int].outgoing_reliable_sequence_number == spec_sequence_of(
                number,
            )
            &&& 0 <= count
            &&& delivered + count <= stream.len()
            &&& after.dispatched == receiver.dispatched + spec_receive_events(
                receiver.id,
                channel_id,
                stream.subrange(delivered, delivered + count),
                PacketFlags::spec_reliable(),
            ) + spec_receive_events(
                receiver.id,
                channel_id,
                arrived.swept_payloads(),
                PacketFlags::spec_unreliable(),
            )
            &&& spec_faithful(after.channels[channel_id as int], stream, delivered + count)
            &&& after.state == receiver.state
        }),
{
    let commands = sender.send_commands(channel_id, packet);
    let command = commands[0];
    assert(command.header.reliable_sequence_number == spec_sequence_of(number));
    assert(command.data == stream[number - 1]);
    assert(command.wf());
    lemma_reliable_delivery_in_order(
        receiver.channels[channel_id as int],
        stream,
        delivered,
        number,
    );
}

/// The peer after those of the given commands with the numbers in `order`
/// arrived one after the other, each at `now` in a datagram with the given
/// sent time.
pub open spec fn spec_after_commands(
    receiver: PeerView,
    commands: Seq<CommandView>,
    order: Seq<int>,
    sent_time: Option<u16>,
    now: u32,
) -> PeerView
    decreases order.len(),
{
    if order.len() == 0 {
        receiver
    } else {
        spec_after_commands(
            receiver,
            commands,
            order.drop_last(),
            sent_time,
            now,
        ).after_handling(commands[order.last()], sent_time, now)
    }
}

/// The events for two runs of payloads are those for the first run and
/// then those for the second.
pub proof fn lemma_events_of_both(
    peer: crate::peer::PeerID,
    channel_id: u8,
    first: Seq<Seq<u8>>,
    second: Seq<Seq<u8>>,
    flags: PacketFlags,
)
    ensures
        spec_receive_events(peer, channel_id, first + second, flags) == spec_receive_events(
            peer,
            channel_id,
            first,
            flags,
        ) + spec_receive_events(peer, channel_id, second, flags),
{
    assert(spec_receive_events(peer, channel_id, first + second, flags) =~= spec_receive_events(
        peer,
        channel_id,
        first,
        flags,
    ) + spec_receive_events(peer, channel_id, second, flags));
}

/// What a receiver holds after any run of the fragments of one large
/// reliable packet: its channel is the channel fed with the pieces, and
/// the events it has added hand up what the channel has delivered.
proof fn lemma_fragments_feed_the_channel(
    sender: PeerView,
    receiver: PeerView,
    channel_id: u8,
    packet: PacketView,
    order: Seq<int>,
    sent_time: Option<u16>,
    now: u32,
)
    requires
        sender.session.wf(),
        sender.send_error(channel_id, packet) is None,
        sender.send_carriage(channel_id, packet) == Carriage::Reliable,
        packet.data.len() > spec_fragment_length(sender.session.mtu),
        receiver.state.spec_in_connected_family(),
        channel_id < receiver.channels.len(),
        receiver.channels[channel_id as int].pending_unreliable.len() == 0,
        forall|j: int| 0 <= j < order.len() ==> 0 <= #[trigger] order[j] < sender.send_count(packet),
    ensures
        ({
            let after = spec_after_commands(
                receiver,
                sender.send_commands(channel_id, packet),
                order,
                sent_time,
                now,
            );
            let fed = spec_feed(
                receiver.channels[channel_id as int],
                packet.data,
                spec_fragment_length(sender.session.mtu),
                spec_advance(
                    sender.channels[channel_id as int].outgoing_reliable_sequence_number,
                    1,
                ),
                order,
            );
            &&& after.state == receiver.state
            &&& after.id == receiver.id
            &&& after.channels.len() == receiver.channels.len()
            &&& after.channels[channel_id as int] == fed.channel
            &&& fed.channel.pending_unreliable.len() == 0
            &&& after.dispatched == receiver.dispatched + spec_receive_events(
                receiver.id,
                channel_id,
                fed.delivered,
                PacketFlags::spec_reliable(),
            )
        }),
    decreases order.len(),
{
    let commands = sender.send_commands(channel_id, packet);
    let length = spec_fragment_length(sender.session.mtu);
    let start = spec_advance(
        sender.channels[channel_id as int].outgoing_reliable_sequence_number,
        1,
    );
    let reliable = PacketFlags::spec_reliable();
    if order.len() == 0 {
        assert(receiver.dispatched + spec_receive_events(
            receiver.id,
            channel_id,
            Seq::<Seq<u8>>::empty(),
            reliable,
        ) =~= receiver.dispatched);
    } else {
        let earlier = order.drop_last();
        let i = order.last();
        lemma_fragments_feed_the_channel(
            sender,
            receiver,
            channel_id,
            packet,
            earlier,
            sent_time,
            now,
        );
        let before = spec_after_commands(receiver, commands, earlier, sent_time, now);
        let fed = spec_feed(receiver.channels[channel_id as int], packet.data, length, start, earlier);
        let command = commands[i];
        lemma_piece_bounds(packet.data.len() as int, length, i);
        assert(command.wf());
        lemma_fragments_are_pieces(sender, channel_id, packet, before, i);
        let arrived = spec_with_piece(fed.channel, packet.data, length, start, i);
        assert(before.channel_with(command) == arrived);
        assert(arrived.pending_unreliable.len() == 0);
        assert(arrived.swept_payloads() =~= Seq::<Seq<u8>>::empty());
        assert(arrived.after_deliveries().pending_unreliable.len() == 0);
        lemma_events_of_both(
            receiver.id,
            channel_id,
            fed.delivered,
            arrived.ready_payloads(),
            reliable,
        );
        let after = before.after_handling(command, sent_time, now);
        assert(after.dispatched =~= receiver.dispatched + spec_receive_events(
            receiver.id,
            channel_id,
            fed.delivered + arrived.ready_payloads(),
            reliable,
        ));
    }
}

/// A large packet arrives as it was sent, whatever the MTU.
///
/// Let the application of the sender queue a reliable packet that does not
/// fit one command, so that it travels in fragments cut at what the MTU of
/// the session leaves room for. Let the receiver be in the connected family
/// of states, with nothing waiting on the channel and the last reliable
/// message it delivered there the one before the packet. Let the fragments
/// reach the receiver in any order, each of them at least once and as
/// often as the network likes.
///
/// Then the receiver has added, for its application, one event and no
/// more: the packet is received on the channel, reliable, its payload the
/// payload that was sent. Nothing of it waits any more, and the receiver
/// expects the message behind the last fragment next.
pub proof fn lemma_large_packet_arrives_whole(
    sender: PeerView,
    receiver: PeerView,
    channel_id: u8,
    packet: PacketView,
    order: Seq<int>,
    sent_time: Option<u16>,
    now: u32,
)
    requires
        sender.session.wf(),
        sender.send_error(channel_id, packet) is None,
        sender.send_carriage(channel_id, packet) == Carriage::Reliable,
        packet.data.len() > spec_fragment_length(sender.session.mtu),
        receiver.state.spec_in_connected_family(),
        channel_id < receiver.channels.len(),
        receiver.channels[channel_id as int].pending_reliable.len() == 0,
        receiver.channels[channel_id as int].pending_unreliable.len() == 0,
        receiver.channels[channel_id as int].incoming_reliable_sequence_number
            == sender.channels[channel_id as int].outgoing_reliable_sequence_number,
        forall|j: int| 0 <= j < order.len() ==> 0 <= #[trigger] order[j] < sender.send_count(packet),
        forall|i: int| 0 <= i < sender.send_count(packet) ==> order.contains(i),
    ensures
        ({
            let after = spec_after_commands(
                receiver,
                sender.send_commands(channel_id, packet),
                order,
                sent_time,
                now,
            );
            &&& after.dispatched == receiver.dispatched.push(
                EventView::Receive {
                    peer: receiver.id,
                    channel_id,
                    packet: PacketView { data: packet.data, flags: PacketFlags::spec_reliable() },
                },
            )
            &&& after.state == receiver.state
            &&& after.channels[channel_id as int].pending_reliable.len() == 0
            &&& after.channels[channel_id as int].incoming_reliable_sequence_number
                == spec_advance(
                sender.channels[channel_id as int].outgoing_reliable_sequence_number,
                sender.send_count(packet),
            )
        }),
{
    let length = spec_fragment_length(sender.session.mtu);
    let channel = receiver.channels[channel_id as int];
    lemma_fragments_feed_the_channel(sender, receiver, channel_id, packet, order, sent_time, now);
    assert(sender.send_count(packet) == spec_fragment_count(packet.data.len() as int, length));
    lemma_fragments_restore_message(channel, packet.data, length, order);
    let after = spec_after_commands(
        receiver,
        sender.send_commands(channel_id, packet),
        order,
        sent_time,
        now,
    );
    assert(after.dispatched =~= receiver.dispatched.push(
        EventView::Receive {
            peer: receiver.id,
            channel_id,
            packet: PacketView { data: packet.data, flags: PacketFlags::spec_reliable() },
        },
    ));
}

/// An unreliable packet arrives at most once, and never behind a later one.
///
/// Let the application of the sender queue a packet that travels
/// unreliably in one command. Let the receiver be in the connected family
/// of states, with nothing waiting on the channel and the last reliable
/// message it delivered there the last that the sender sent.
///
/// When the command reaches the receiver, the packet is handed to the
/// application if its number lies ahead of the unreliable message
/// delivered last, and is then itself the one delivered last; if a later
/// one has been delivered before it, it is dropped and nothing changes.
/// When the command reaches the receiver once more, nothing is handed to
/// the application.
pub proof fn lemma_unreliable_packet_arrives_at_most_once(
    sender: PeerView,
    receiver: PeerView,
    channel_id: u8,
    packet: PacketView,
    sent_time: Option<u16>,
    now: u32,
)
    requires
        sender.session.wf(),
        sender.send_error(channel_id, packet) is None,
        sender.send_carriage(channel_id, packet) == Carriage::Unreliable,
        packet.data.len() <= spec_fragment_length(sender.session.mtu),
        receiver.state.spec_in_connected_family(),
        channel_id < receiver.channels.len(),
        receiver.channels[channel_id as int].pending_reliable.len() == 0,
        receiver.channels[channel_id as int].pending_unreliable.len() == 0,
        receiver.channels[channel_id as int].incoming_reliable_sequence_number
            == sender.channels[channel_id as int].outgoing_reliable_sequence_number,
    ensures
        ({
            let commands = sender.send_commands(channel_id, packet);
            let number = spec_advance(
                sender.channels[channel_id as int].outgoing_unreliable_sequence_number,
                1,
            );
            let channel = receiver.channels[channel_id as int];
            let after = receiver.after_handling(commands[0], sent_time, now);
            let again = after.after_handling(commands[0], sent_time, now);
            &&& commands.len() == 1
            &&& after.state == receiver.state
            &&& after.channels[channel_id as int].pending_unreliable.len() == 0
            &&& after.channels[channel_id as int].pending_reliable.len() == 0
            &&& spec_is_fresh(channel.incoming_unreliable_sequence_number, number) ==> {
                &&& after.dispatched == receiver.dispatched.push(
                    EventView::Receive {
                        peer: receiver.id,
                        channel_id,
                        packet: PacketView {
                            data: packet.data,
                            flags: PacketFlags::spec_unreliable(),
                        },
                    },
                )
                &&& after.channels[channel_id as int].incoming_unreliable_sequence_number
                    == number
            }
            &&& !spec_is_fresh(channel.incoming_unreliable_sequence_number, number) ==> {
                &&& after.dispatched == receiver.dispatched
                &&& after.channels[channel_id as int].incoming_unreliable_sequence_number
                    == channel.incoming_unreliable_sequence_number
            }
            &&& again.dispatched == after.dispatched
            &&& again.channels[channel_id as int].incoming_unreliable_sequence_number
                == after.channels[channel_id as int].incoming_unreliable_sequence_number
        }),
{
    let commands = sender.send_commands(channel_id, packet);
    let command = commands[0];
    let number = spec_advance(
        sender.channels[channel_id as int].outgoing_unreliable_sequence_number,
        1,
    );
    let channel = receiver.channels[channel_id as int];
    let epoch = channel.incoming_reliable_sequence_number;
    assert(command.wf());
    lemma_arrival_of_unreliable(receiver, channel_id, epoch, number, packet.data);
    let after = receiver.after_handling(command, sent_time, now);
    assert(after == receiver.with_arrival(channel_id, receiver.channel_with(command)));
    lemma_arrival_of_unreliable(after, channel_id, epoch, number, packet.data);
    let again = after.after_handling(command, sent_time, now);
    assert(again == after.with_arrival(channel_id, after.channel_with(command)));
    assert(!spec_is_fresh(
        after.channels[channel_id as int].incoming_unreliable_sequence_number,
        number,
    )) by {
        if spec_is_fresh(channel.incoming_unreliable_sequence_number, number) {
            assert(crate::channel::spec_ahead(number, number) == 0);
        }
    }
}

/// What an unreliable message of the current run does to a peer on whose
/// channel nothing waits: it is delivered if it lies ahead of the one
/// delivered last, and dropped otherwise.
proof fn lemma_arrival_of_unreliable(
    receiver: PeerView,
    channel_id: u8,
    epoch: u16,
    number: u16,
    data: Seq<u8>,
)
    requires
        channel_id < receiver.channels.len(),
        receiver.channels[channel_id as int].pending_reliable.len() == 0,
        receiver.channels[channel_id as int].pending_unreliable.len() == 0,
        receiver.channels[channel_id as int].incoming_reliable_sequence_number == epoch,
    ensures
        ({
            let channel = receiver.channels[channel_id as int];
            let arrived = channel.with_unreliable(epoch, number, data);
            let after = receiver.with_arrival(channel_id, arrived);
            let fresh = spec_is_fresh(channel.incoming_unreliable_sequence_number, number);
            &&& after.channels[channel_id as int].pending_unreliable.len() == 0
            &&& after.channels[channel_id as int].pending_reliable.len() == 0
            &&& after.channels[channel_id as int].incoming_reliable_sequence_number == epoch
            &&& after.channels[channel_id as int].incoming_unreliable_sequence_number == if fresh {
                number
            } else {
                channel.incoming_unreliable_sequence_number
            }
            &&& after.dispatched == if fresh {
                receiver.dispatched.push(
                    EventView::Receive {
                        peer: receiver.id,
                        channel_id,
                        packet: PacketView { data, flags: PacketFlags::spec_unreliable() },
                    },
                )
            } else {
                receiver.dispatched
            }
        }),
{
    let channel = receiver.channels[channel_id as int];
    let arrived = channel.with_unreliable(epoch, number, data);
    let fresh = spec_is_fresh(channel.incoming_unreliable_sequence_number, number);
    let after = receiver.with_arrival(channel_id, arrived);
    assert(crate::channel::spec_ahead(epoch, epoch) == 0);
    assert(arrived.ready() == 0);
    assert(arrived.pending_reliable.take(0) =~= Seq::empty());
    assert(arrived.ready_payloads() =~= Seq::<Seq<u8>>::empty());
    let run = arrived.after_reliable_run();
    assert(run.pending_reliable =~= arrived.pending_reliable);
    assert(run.incoming_reliable_sequence_number == epoch);
    if fresh {
        assert(arrived.pending_unreliable =~= seq![crate::channel::spec_whole(epoch, number, data)]);
        assert(arrived.pending_unreliable.drop_first() =~= Seq::empty());
        let e = crate::channel::spec_whole(epoch, number, data);
        assert(e.assembly.complete());
        let last = channel.incoming_unreliable_sequence_number;
        let rest = crate::channel::spec_sweep(Seq::<IncomingView>::empty(), epoch, number);
        assert(rest.delivered =~= Seq::<Seq<u8>>::empty());
        assert(run.pending_unreliable == arrived.pending_unreliable);
        assert(run.sweep() == crate::channel::spec_sweep(run.pending_unreliable, epoch, last));
        assert(crate::channel::spec_sweep(run.pending_unreliable, epoch, last).delivered
            == seq![data] + rest.delivered);
        assert(run.sweep().delivered =~= seq![data]);
        assert(after.dispatched =~= receiver.dispatched.push(
            EventView::Receive {
                peer: receiver.id,
                channel_id,
                packet: PacketView { data, flags: PacketFlags::spec_unreliable() },
            },
        ));
    } else {
        assert(run.sweep().delivered =~= Seq::<Seq<u8>>::empty());
        assert(after.dispatched =~= receiver.dispatched);
    }
}

} // verus!
