//! A stream of reliable packets, from the application of the sender to the
//! application of the receiver.
//!
//! The sender numbers the packets in the order in which they are queued.
//! The network may lose, repeat and reorder the commands that carry them.
//! Whatever it does, the receiver hands the packets to its application in
//! the order in which they were queued, each once; and it has handed up
//! every packet of which, and of each packet before which, one copy has
//! come through.

use vstd::prelude::*;
use crate::channel::ordering::{
    lemma_arrived_messages_are_delivered, lemma_deliveries_are_the_beginning_of_the_stream,
    spec_after_arrivals, spec_faithful, spec_in_flight, spec_sequence_of,
};
use crate::channel::{spec_advance, RELIABLE_WINDOW};
use crate::packet::{PacketFlags, PacketView};
use crate::peer::delivery::{lemma_events_of_both, spec_after_commands};
use crate::peer::receive::spec_receive_events;
use crate::peer::send::spec_fragment_length;
use crate::peer::{EventView, PeerView};
use crate::wire::{CommandBody, CommandHeader, CommandView};

verus! {

/// The sender after its application queued the given packets on a
/// channel, one after the other.
pub open spec fn spec_after_sends(
    sender: PeerView,
    channel_id: u8,
    packets: Seq<PacketView>,
) -> PeerView
    decreases packets.len(),
{
    if packets.len() == 0 {
        sender
    } else {
        spec_after_sends(sender, channel_id, packets.drop_last()).after_send(
            channel_id,
            packets.last(),
        )
    }
}

/// Whether the sender queues each of the packets when its turn has come,
/// as one reliable command.
pub open spec fn spec_queues_each(
    sender: PeerView,
    channel_id: u8,
    packets: Seq<PacketView>,
) -> bool
    decreases packets.len(),
{
    if packets.len() == 0 {
        true
    } else {
        let before = spec_after_sends(sender, channel_id, packets.drop_last());
        &&& spec_queues_each(sender, channel_id, packets.drop_last())
        &&& packets.last().flags.reliable
        &&& packets.last().data.len() <= spec_fragment_length(before.session.mtu)
        &&& before.send_error(channel_id, packets.last()) is None
    }
}

/// The commands that carry the packets, one for each.
pub open spec fn spec_commands_of(
    sender: PeerView,
    channel_id: u8,
    packets: Seq<PacketView>,
) -> Seq<CommandView>
    decreases packets.len(),
{
    if packets.len() == 0 {
        Seq::empty()
    } else {
        spec_commands_of(sender, channel_id, packets.drop_last()).push(
            spec_after_sends(sender, channel_id, packets.drop_last()).send_commands(
                channel_id,
                packets.last(),
            )[0],
        )
    }
}

/// The command that carries a reliable message in one piece.
pub open spec fn spec_reliable_command(channel_id: u8, sequence: u16, data: Seq<u8>) -> CommandView {
    CommandView {
        header: CommandHeader {
            acknowledge: true,
            unsequenced: false,
            channel_id,
            reliable_sequence_number: sequence,
        },
        body: CommandBody::SendReliable,
        data,
    }
}

/// Whether each of the commands with the numbers in `order` arrives while
/// it is in reach of the receiver: when it comes, it is neither half the
/// sequence space behind what the receiver has handed to its application
/// since the first of them nor beyond the window ahead of it.
pub open spec fn spec_arrive_in_window(
    receiver: PeerView,
    commands: Seq<CommandView>,
    order: Seq<int>,
    sent_time: Option<u16>,
    now: u32,
) -> bool
    decreases order.len(),
{
    if order.len() == 0 {
        true
    } else {
        let earlier = order.drop_last();
        let before = spec_after_commands(receiver, commands, earlier, sent_time, now);
        let handed = before.dispatched.len() - receiver.dispatched.len();
        &&& spec_arrive_in_window(receiver, commands, earlier, sent_time, now)
        &&& 0 <= order.last() < commands.len()
        &&& handed - 0x8000 < order.last() + 1 <= handed + RELIABLE_WINDOW
    }
}

/// The events that hand the first `count` of the packets to the
/// application of the given peer.
pub open spec fn spec_received(
    receiver: PeerView,
    channel_id: u8,
    packets: Seq<PacketView>,
    count: int,
) -> Seq<EventView> {
    Seq::new(
        count as nat,
        |k: int|
            EventView::Receive {
                peer: receiver.id,
                channel_id,
                packet: PacketView { data: packets[k].data, flags: PacketFlags::spec_reliable() },
            },
    )
}

/// What queueing one small reliable packet does to the sender: the
/// command that carries it joins the outgoing ones under the next sequence
/// number of the channel, and session and state stay as they are.
proof fn lemma_one_send(sender: PeerView, channel_id: u8, packet: PacketView)
    requires
        packet.flags.reliable,
        packet.data.len() <= spec_fragment_length(sender.session.mtu),
        sender.send_error(channel_id, packet) is None,
    ensures
        ({
            let after = sender.after_send(channel_id, packet);
            let next = spec_advance(
                sender.channels[channel_id as int].outgoing_reliable_sequence_number,
                1,
            );
            let command = spec_reliable_command(channel_id, next, packet.data);
            &&& after.session == sender.session
            &&& after.state == sender.state
            &&& after.channels.len() == sender.channels.len()
            &&& after.channels[channel_id as int].outgoing_reliable_sequence_number == next
            &&& sender.send_commands(channel_id, packet).len() == 1
            &&& sender.send_commands(channel_id, packet)[0] == command
            &&& after.outgoing == sender.outgoing.push(command)
        }),
{
    let after = sender.after_send(channel_id, packet);
    let carried = sender.send_commands(channel_id, packet);
    assert(carried.len() == 1);
    assert(after.outgoing =~= sender.outgoing.push(carried[0]));
}

/// Moving on by one after moving on by some is moving on by one more.
proof fn lemma_advance_once_more(from: u16, by: int)
    requires
        0 <= by,
    ensures
        spec_advance(spec_advance(from, by), 1) == spec_advance(from, by + 1),
{
}

/// The sender numbers its commands in the order of the packets.
///
/// Once the packets are queued, the channel has given out one sequence
/// number for each, the commands that carry them stand behind the ones
/// that were queued before, and the command of each packet is a reliable
/// command with the payload of the packet under the sequence number of its
/// place.
pub proof fn lemma_sender_numbers_its_commands(
    sender: PeerView,
    channel_id: u8,
    packets: Seq<PacketView>,
)
    requires
        spec_queues_each(sender, channel_id, packets),
    ensures
        ({
            let after = spec_after_sends(sender, channel_id, packets);
            let commands = spec_commands_of(sender, channel_id, packets);
            let last = sender.channels[channel_id as int].outgoing_reliable_sequence_number;
            &&& after.session == sender.session
            &&& after.state == sender.state
            &&& after.channels.len() == sender.channels.len()
            &&& after.channels[channel_id as int].outgoing_reliable_sequence_number
                == spec_advance(last, packets.len() as int)
            &&& after.outgoing == sender.outgoing + commands
            &&& commands.len() == packets.len()
            &&& forall|k: int|
                0 <= k < packets.len() ==> #[trigger] commands[k] == spec_reliable_command(
                    channel_id,
                    spec_advance(last, k + 1),
                    packets[k].data,
                )
        }),
    decreases packets.len(),
{
    let commands = spec_commands_of(sender, channel_id, packets);
    let last = sender.channels[channel_id as int].outgoing_reliable_sequence_number;
    if packets.len() == 0 {
        assert(sender.outgoing + commands =~= sender.outgoing);
    } else {
        let earlier = packets.drop_last();
        lemma_sender_numbers_its_commands(sender, channel_id, earlier);
        let before = spec_after_sends(sender, channel_id, earlier);
        let queued = spec_commands_of(sender, channel_id, earlier);
        lemma_one_send(before, channel_id, packets.last());
        lemma_advance_once_more(last, earlier.len() as int);
        let command = spec_reliable_command(
            channel_id,
            spec_advance(last, packets.len() as int),
            packets.last().data,
        );
        let after = spec_after_sends(sender, channel_id, packets);
        assert(after == before.after_send(channel_id, packets.last()));
        assert(commands == queued.push(command));
        assert(after.outgoing =~= sender.outgoing + commands);
        assert forall|k: int| 0 <= k < packets.len() implies #[trigger] commands[k]
            == spec_reliable_command(channel_id, spec_advance(last, k + 1), packets[k].data) by {
            if k < earlier.len() {
                assert(commands[k] == queued[k]);
                assert(earlier[k] == packets[k]);
            }
        }
    }
}

/// What the arrival of a reliable message in one piece does to a receiver
/// on whose channel no unreliable message waits: the message takes its
/// place on the channel, and what the channel can deliver now is handed to
/// the application.
proof fn lemma_one_arrival(
    receiver: PeerView,
    channel_id: u8,
    sequence: u16,
    data: Seq<u8>,
    sent_time: Option<u16>,
    now: u32,
)
    requires
        receiver.state.spec_in_connected_family(),
        channel_id < receiver.channels.len(),
        receiver.channels[channel_id as int].pending_unreliable.len() == 0,
        data.len() <= 0xFFFF,
    ensures
        ({
            let command = spec_reliable_command(channel_id, sequence, data);
            let arrived = receiver.channels[channel_id as int].with_reliable(sequence, data);
            let after = receiver.after_handling(command, sent_time, now);
            &&& after.state == receiver.state
            &&& after.id == receiver.id
            &&& after.channels.len() == receiver.channels.len()
            &&& after.channels[channel_id as int] == arrived.after_deliveries()
            &&& after.channels[channel_id as int].pending_unreliable.len() == 0
            &&& after.dispatched == receiver.dispatched + spec_receive_events(
                receiver.id,
                channel_id,
                arrived.ready_payloads(),
                PacketFlags::spec_reliable(),
            )
        }),
{
    let command = spec_reliable_command(channel_id, sequence, data);
    let arrived = receiver.channels[channel_id as int].with_reliable(sequence, data);
    assert(command.wf());
    assert(receiver.channel_with(command) == arrived);
    assert(arrived.pending_unreliable.len() == 0);
    assert(arrived.swept_payloads() =~= Seq::<Seq<u8>>::empty());
    assert(arrived.after_deliveries().pending_unreliable.len() == 0);
    let after = receiver.after_handling(command, sent_time, now);
    assert(after.dispatched =~= receiver.dispatched + spec_receive_events(
        receiver.id,
        channel_id,
        arrived.ready_payloads(),
        PacketFlags::spec_reliable(),
    ));
}

/// The payloads of the packets as messages of a stream in which `base`
/// messages without a payload have gone before them.
spec fn spec_stream_of(base: int, packets: Seq<PacketView>) -> Seq<Seq<u8>> {
    Seq::new(
        (base + packets.len()) as nat,
        |i: int|
            if i < base {
                Seq::empty()
            } else {
                packets[i - base].data
            },
    )
}

/// The numbers in that stream of the packets with the numbers in `order`.
spec fn spec_numbers_of(base: int, order: Seq<int>) -> Seq<int> {
    Seq::new(order.len(), |j: int| base + order[j] + 1)
}

/// What a receiver holds after any run of the commands that carry the
/// packets of a sender: its channel is the channel at which the messages
/// of the stream have arrived, and the events it has added hand up what
/// the channel has delivered.
proof fn lemma_commands_are_arrivals(
    sender: PeerView,
    receiver: PeerView,
    channel_id: u8,
    packets: Seq<PacketView>,
    order: Seq<int>,
    sent_time: Option<u16>,
    now: u32,
)
    requires
        sender.session.wf(),
        spec_queues_each(sender, channel_id, packets),
        receiver.state.spec_in_connected_family(),
        channel_id < receiver.channels.len(),
        receiver.channels[channel_id as int].pending_unreliable.len() == 0,
        forall|j: int| 0 <= j < order.len() ==> 0 <= #[trigger] order[j] < packets.len(),
    ensures
        ({
            let base = sender.channels[channel_id as int].outgoing_reliable_sequence_number as int;
            let fed = spec_after_arrivals(
                receiver.channels[channel_id as int],
                spec_stream_of(base, packets),
                spec_numbers_of(base, order),
            );
            let after = spec_after_commands(
                receiver,
                spec_commands_of(sender, channel_id, packets),
                order,
                sent_time,
                now,
            );
            &&& after.state == receiver.state
            &&& after.id == receiver.id
            &&& after.channels.len() == receiver.channels.len()
            &&& after.channels[channel_id as int] == fed.channel
            &&& fed.channel.pending_unreliable.len() == 0
            &&& after.dispatched.len() == receiver.dispatched.len() + fed.handed.len()
            &&& after.dispatched == receiver.dispatched + spec_receive_events(
                receiver.id,
                channel_id,
                fed.handed,
                PacketFlags::spec_reliable(),
            )
        }),
    decreases order.len(),
{
    let last = sender.channels[channel_id as int].outgoing_reliable_sequence_number;
    let base = last as int;
    let stream = spec_stream_of(base, packets);
    let arrivals = spec_numbers_of(base, order);
    let channel = receiver.channels[channel_id as int];
    let commands = spec_commands_of(sender, channel_id, packets);
    let reliable = PacketFlags::spec_reliable();
    if order.len() == 0 {
        assert(receiver.dispatched + spec_receive_events(
            receiver.id,
            channel_id,
            Seq::<Seq<u8>>::empty(),
            reliable,
        ) =~= receiver.dispatched);
    } else {
        let earlier = order.drop_last();
        let i = order.last();
        lemma_commands_are_arrivals(sender, receiver, channel_id, packets, earlier, sent_time, now);
        assert(arrivals.drop_last() =~= spec_numbers_of(base, earlier));
        assert(arrivals.last() == base + i + 1);
        let before = spec_after_commands(receiver, commands, earlier, sent_time, now);
        let fed = spec_after_arrivals(channel, stream, arrivals.drop_last());
        lemma_sender_numbers_its_commands(sender, channel_id, packets);
        let data = packets[i].data;
        let sequence = spec_advance(last, i + 1);
        assert(commands[i] == spec_reliable_command(channel_id, sequence, data));
        assert(sequence == spec_sequence_of(base + i + 1));
        assert(stream[base + i] == data);
        lemma_queued_packet_is_small(sender, channel_id, packets, i);
        lemma_one_arrival(before, channel_id, sequence, data, sent_time, now);
        let arrived = fed.channel.with_reliable(sequence, data);
        lemma_events_of_both(
            receiver.id,
            channel_id,
            fed.handed,
            arrived.ready_payloads(),
            reliable,
        );
    }
}

/// Commands that arrive in reach of the receiver are messages in flight:
/// what the receiver asks of the commands, its channel asks of the
/// messages they carry.
proof fn lemma_commands_are_in_flight(
    sender: PeerView,
    receiver: PeerView,
    channel_id: u8,
    packets: Seq<PacketView>,
    order: Seq<int>,
    sent_time: Option<u16>,
    now: u32,
)
    requires
        sender.session.wf(),
        spec_queues_each(sender, channel_id, packets),
        receiver.state.spec_in_connected_family(),
        channel_id < receiver.channels.len(),
        receiver.channels[channel_id as int].pending_reliable.len() == 0,
        receiver.channels[channel_id as int].pending_unreliable.len() == 0,
        receiver.channels[channel_id as int].incoming_reliable_sequence_number
            == sender.channels[channel_id as int].outgoing_reliable_sequence_number,
        spec_arrive_in_window(
            receiver,
            spec_commands_of(sender, channel_id, packets),
            order,
            sent_time,
            now,
        ),
    ensures
        ({
            let base = sender.channels[channel_id as int].outgoing_reliable_sequence_number as int;
            let channel = receiver.channels[channel_id as int];
            &&& forall|j: int| 0 <= j < order.len() ==> 0 <= #[trigger] order[j] < packets.len()
            &&& spec_faithful(channel, spec_stream_of(base, packets), base)
            &&& spec_in_flight(
                channel,
                spec_stream_of(base, packets),
                base,
                spec_numbers_of(base, order),
            )
        }),
    decreases order.len(),
{
    let base = sender.channels[channel_id as int].outgoing_reliable_sequence_number as int;
    let stream = spec_stream_of(base, packets);
    let arrivals = spec_numbers_of(base, order);
    let channel = receiver.channels[channel_id as int];
    lemma_sender_numbers_its_commands(sender, channel_id, packets);
    if order.len() > 0 {
        let earlier = order.drop_last();
        lemma_commands_are_in_flight(sender, receiver, channel_id, packets, earlier, sent_time, now);
        lemma_commands_are_arrivals(sender, receiver, channel_id, packets, earlier, sent_time, now);
        assert(arrivals.drop_last() =~= spec_numbers_of(base, earlier));
        assert(arrivals.last() == base + order.last() + 1);
        assert forall|j: int| 0 <= j < order.len() implies 0 <= #[trigger] order[j]
            < packets.len() by {
            if j < earlier.len() {
                assert(earlier[j] == order[j]);
            }
        }
    }
}

/// A packet that is queued as one command is no longer than a command can
/// say.
proof fn lemma_queued_packet_is_small(
    sender: PeerView,
    channel_id: u8,
    packets: Seq<PacketView>,
    k: int,
)
    requires
        sender.session.wf(),
        spec_queues_each(sender, channel_id, packets),
        0 <= k < packets.len(),
    ensures
        packets[k].data.len() <= 0xFFFF,
    decreases packets.len(),
{
    let earlier = packets.drop_last();
    if k < earlier.len() {
        lemma_queued_packet_is_small(sender, channel_id, earlier, k);
    } else {
        lemma_sender_numbers_its_commands(sender, channel_id, earlier);
    }
}

/// Reliable packets sent in order are received in order.
///
/// Let the application of the sender queue reliable packets on a channel,
/// one after the other, each small enough for one command. Let the
/// receiver be in the connected family of states, with nothing waiting on
/// the channel and the last reliable message it delivered there the last
/// that the sender sent before these. Let the commands that carry the
/// packets reach the receiver in any order, any of them never, once or
/// many times, each while it is in reach of the window.
///
/// Then the events that the receiver has added for its application hand up
/// the first of the packets, as many as it has added events, in the order
/// in which they were queued, each once and with the payload that was
/// sent. So of two packets the one queued first is received first.
pub proof fn lemma_reliable_stream_arrives_in_order(
    sender: PeerView,
    receiver: PeerView,
    channel_id: u8,
    packets: Seq<PacketView>,
    order: Seq<int>,
    sent_time: Option<u16>,
    now: u32,
)
    requires
        sender.session.wf(),
        spec_queues_each(sender, channel_id, packets),
        receiver.state.spec_in_connected_family(),
        channel_id < receiver.channels.len(),
        receiver.channels[channel_id as int].pending_reliable.len() == 0,
        receiver.channels[channel_id as int].pending_unreliable.len() == 0,
        receiver.channels[channel_id as int].incoming_reliable_sequence_number
            == sender.channels[channel_id as int].outgoing_reliable_sequence_number,
        spec_arrive_in_window(
            receiver,
            spec_commands_of(sender, channel_id, packets),
            order,
            sent_time,
            now,
        ),
    ensures
        ({
            let after = spec_after_commands(
                receiver,
                spec_commands_of(sender, channel_id, packets),
                order,
                sent_time,
                now,
            );
            let handed = after.dispatched.len() - receiver.dispatched.len();
            &&& 0 <= handed <= packets.len()
            &&& after.dispatched == receiver.dispatched + spec_received(
                receiver,
                channel_id,
                packets,
                handed,
            )
            &&& after.state == receiver.state
        }),
{
    let base = sender.channels[channel_id as int].outgoing_reliable_sequence_number as int;
    let stream = spec_stream_of(base, packets);
    let arrivals = spec_numbers_of(base, order);
    let channel = receiver.channels[channel_id as int];
    lemma_commands_are_in_flight(sender, receiver, channel_id, packets, order, sent_time, now);
    lemma_commands_are_arrivals(sender, receiver, channel_id, packets, order, sent_time, now);
    lemma_deliveries_are_the_beginning_of_the_stream(channel, stream, base, arrivals);
    let fed = spec_after_arrivals(channel, stream, arrivals);
    let handed = fed.handed.len() as int;
    assert(spec_receive_events(receiver.id, channel_id, fed.handed, PacketFlags::spec_reliable())
        =~= spec_received(receiver, channel_id, packets, handed));
}

/// Reliable packets that have come through are received.
///
/// Under the conditions of the law before this one: once the command of
/// each of the first `upto` packets has reached the receiver, be it after
/// many transmissions, the receiver has handed all of them to its
/// application. No packet waits for anything but the packets queued
/// before it.
pub proof fn lemma_reliable_stream_arrives_whole(
    sender: PeerView,
    receiver: PeerView,
    channel_id: u8,
    packets: Seq<PacketView>,
    order: Seq<int>,
    sent_time: Option<u16>,
    now: u32,
    upto: int,
)
    requires
        sender.session.wf(),
        spec_queues_each(sender, channel_id, packets),
        receiver.state.spec_in_connected_family(),
        channel_id < receiver.channels.len(),
        receiver.channels[channel_id as int].pending_reliable.len() == 0,
        receiver.channels[channel_id as int].pending_unreliable.len() == 0,
        receiver.channels[channel_id as int].incoming_reliable_sequence_number
            == sender.channels[channel_id as int].outgoing_reliable_sequence_number,
        spec_arrive_in_window(
            receiver,
            spec_commands_of(sender, channel_id, packets),
            order,
            sent_time,
            now,
        ),
        0 <= upto <= packets.len(),
        forall|k: int| 0 <= k < upto ==> order.contains(k),
    ensures
        ({
            let after = spec_after_commands(
                receiver,
                spec_commands_of(sender, channel_id, packets),
                order,
                sent_time,
                now,
            );
            upto <= after.dispatched.len() - receiver.dispatched.len()
        }),
{
    let base = sender.channels[channel_id as int].outgoing_reliable_sequence_number as int;
    let stream = spec_stream_of(base, packets);
    let arrivals = spec_numbers_of(base, order);
    let channel = receiver.channels[channel_id as int];
    lemma_commands_are_in_flight(sender, receiver, channel_id, packets, order, sent_time, now);
    lemma_commands_are_arrivals(sender, receiver, channel_id, packets, order, sent_time, now);
    assert forall|n: int| base < n <= base + upto implies arrivals.contains(n) by {
        let k = n - base - 1;
        assert(order.contains(k));
        let j = choose|j: int| 0 <= j < order.len() && order[j] == k;
        assert(arrivals[j] == n);
    }
    lemma_arrived_messages_are_delivered(channel, stream, base, arrivals, base + upto);
}

/// A small reliable packet that reaches an idle receiver is received.
///
/// Let the application of the sender queue a reliable packet that fits
/// one command. Let the receiver be in the connected family of states,
/// with nothing waiting on the channel and the last reliable message it
/// delivered there the last that the sender sent. When the command that
/// carries the packet reaches the receiver, the receiver adds one event
/// for its application: the packet is received, with the payload that was
/// sent. Nothing waits on the channel then, and what the receiver itself
/// has sent on it is as before.
pub proof fn lemma_packet_is_received(
    sender: PeerView,
    receiver: PeerView,
    channel_id: u8,
    packet: PacketView,
    sent_time: Option<u16>,
    now: u32,
)
    requires
        sender.session.wf(),
        packet.flags.reliable,
        packet.data.len() <= spec_fragment_length(sender.session.mtu),
        sender.send_error(channel_id, packet) is None,
        receiver.state.spec_in_connected_family(),
        channel_id < receiver.channels.len(),
        receiver.channels[channel_id as int].pending_reliable.len() == 0,
        receiver.channels[channel_id as int].pending_unreliable.len() == 0,
        receiver.channels[channel_id as int].incoming_reliable_sequence_number
            == sender.channels[channel_id as int].outgoing_reliable_sequence_number,
    ensures
        ({
            let command = sender.send_commands(channel_id, packet)[0];
            let after = receiver.after_handling(command, sent_time, now);
            let channel = receiver.channels[channel_id as int];
            &&& after.dispatched == receiver.dispatched.push(
                EventView::Receive {
                    peer: receiver.id,
                    channel_id,
                    packet: PacketView { data: packet.data, flags: PacketFlags::spec_reliable() },
                },
            )
            &&& after.state == receiver.state
            &&& after.id == receiver.id
            &&& after.session == receiver.session
            &&& after.outgoing == receiver.outgoing
            &&& after.staged == receiver.staged
            &&& after.channels.len() == receiver.channels.len()
            &&& after.channels[channel_id as int].pending_reliable.len() == 0
            &&& after.channels[channel_id as int].pending_unreliable.len() == 0
            &&& after.channels[channel_id as int].incoming_reliable_sequence_number
                == spec_advance(channel.incoming_reliable_sequence_number, 1)
            &&& after.channels[channel_id as int].outgoing_reliable_sequence_number
                == channel.outgoing_reliable_sequence_number
            &&& after.channels[channel_id as int].outgoing_unreliable_sequence_number
                == channel.outgoing_unreliable_sequence_number
        }),
{
    let packets = seq![packet];
    let order = seq![0int];
    assert(packets.drop_last() =~= Seq::<PacketView>::empty());
    assert(order.drop_last() =~= Seq::<int>::empty());
    assert(spec_after_sends(sender, channel_id, packets.drop_last()) == sender);
    assert(spec_queues_each(sender, channel_id, packets.drop_last()));
    assert(packets.last() == packet);
    assert(spec_queues_each(sender, channel_id, packets));
    let commands = spec_commands_of(sender, channel_id, packets);
    let command = sender.send_commands(channel_id, packet)[0];
    assert(spec_commands_of(sender, channel_id, packets.drop_last()) =~= Seq::<
        CommandView,
    >::empty());
    assert(commands =~= seq![command]);
    assert(spec_after_commands(receiver, commands, order.drop_last(), sent_time, now) == receiver);
    assert(spec_arrive_in_window(receiver, commands, order.drop_last(), sent_time, now));
    assert(order.last() == 0);
    assert(spec_arrive_in_window(receiver, commands, order, sent_time, now));
    let after = spec_after_commands(receiver, commands, order, sent_time, now);
    assert(after == receiver.after_handling(command, sent_time, now));
    lemma_reliable_stream_arrives_in_order(
        sender,
        receiver,
        channel_id,
        packets,
        order,
        sent_time,
        now,
    );
    assert(order.contains(0)) by {
        assert(order[0] == 0);
    }
    lemma_reliable_stream_arrives_whole(
        sender,
        receiver,
        channel_id,
        packets,
        order,
        sent_time,
        now,
        1,
    );
    assert(receiver.dispatched + spec_received(receiver, channel_id, packets, 1)
        =~= receiver.dispatched.push(
        EventView::Receive {
            peer: receiver.id,
            channel_id,
            packet: PacketView { data: packet.data, flags: PacketFlags::spec_reliable() },
        },
    ));
    lemma_one_send(sender, channel_id, packet);
    lemma_one_arrival(
        receiver,
        channel_id,
        spec_advance(sender.channels[channel_id as int].outgoing_reliable_sequence_number, 1),
        packet.data,
        sent_time,
        now,
    );
    lemma_next_message_leaves_nothing(
        receiver.channels[channel_id as int],
        spec_advance(sender.channels[channel_id as int].outgoing_reliable_sequence_number, 1),
        packet.data,
    );
}

/// On a channel on which nothing waits, the message that follows the last
/// delivered one is delivered at once, and nothing waits afterwards.
proof fn lemma_next_message_leaves_nothing(
    channel: crate::channel::ChannelView,
    sequence: u16,
    data: Seq<u8>,
)
    requires
        channel.pending_reliable.len() == 0,
        channel.pending_unreliable.len() == 0,
        sequence == spec_advance(channel.incoming_reliable_sequence_number, 1),
    ensures
        ({
            let after = channel.with_reliable(sequence, data).after_deliveries();
            &&& after.pending_reliable.len() == 0
            &&& after.incoming_reliable_sequence_number == sequence
            &&& after.outgoing_reliable_sequence_number == channel.outgoing_reliable_sequence_number
            &&& after.outgoing_unreliable_sequence_number
                == channel.outgoing_unreliable_sequence_number
        }),
{
    let from = channel.incoming_reliable_sequence_number;
    let arrived = channel.with_reliable(sequence, data);
    assert(crate::channel::spec_ahead(from, sequence) == 1);
    assert(channel.has_room_for(sequence, 1));
    let entry = crate::channel::spec_whole(sequence, 0, data);
    assert(arrived.pending_reliable =~= seq![entry]);
    assert(entry.assembly.complete());
    assert(arrived.pending_reliable.drop_first() =~= Seq::empty());
    assert(crate::channel::spec_ready(
        arrived.pending_reliable.drop_first(),
        spec_advance(from, entry.span()),
    ) == 0);
    assert(arrived.ready() == 1);
    assert(arrived.pending_reliable.skip(1) =~= Seq::empty());
    assert(crate::channel::spec_after_run(
        arrived.pending_reliable.drop_first(),
        spec_advance(from, entry.span()),
        0,
    ) == sequence);
    assert(crate::channel::spec_after_run(arrived.pending_reliable, from, 1) == sequence);
    let run = arrived.after_reliable_run();
    assert(run.pending_reliable.len() == 0);
    assert(run.incoming_reliable_sequence_number == sequence);
}

/// An echo comes back.
///
/// Let two peers be the two ends of one session, both in the connected
/// family of states, with nothing waiting on a channel in either
/// direction. Let the application of the first queue a small reliable
/// packet, and let the application of the second, when it has received
/// the packet, queue one with the same payload in answer. When the command
/// that carries the answer reaches the first peer, its application
/// receives the payload that it sent.
pub proof fn lemma_echo_comes_back(
    client: PeerView,
    server: PeerView,
    channel_id: u8,
    packet: PacketView,
    sent_time: Option<u16>,
    now: u32,
)
    requires
        client.session.wf(),
        server.session.wf(),
        packet.flags.reliable,
        packet.data.len() <= spec_fragment_length(client.session.mtu),
        packet.data.len() <= spec_fragment_length(server.session.mtu),
        client.send_error(channel_id, packet) is None,
        server.send_error(channel_id, packet) is None,
        client.channels[channel_id as int].pending_reliable.len() == 0,
        client.channels[channel_id as int].pending_unreliable.len() == 0,
        server.channels[channel_id as int].pending_reliable.len() == 0,
        server.channels[channel_id as int].pending_unreliable.len() == 0,
        server.channels[channel_id as int].incoming_reliable_sequence_number
            == client.channels[channel_id as int].outgoing_reliable_sequence_number,
        client.channels[channel_id as int].incoming_reliable_sequence_number
            == server.channels[channel_id as int].outgoing_reliable_sequence_number,
    ensures
        ({
            let asked = client.after_send(channel_id, packet);
            let question = client.send_commands(channel_id, packet)[0];
            let heard = server.after_handling(question, sent_time, now);
            let echo = PacketView { data: packet.data, flags: PacketFlags::spec_reliable() };
            let answer = heard.send_commands(channel_id, echo)[0];
            let answered = asked.after_handling(answer, sent_time, now);
            &&& heard.dispatched == server.dispatched.push(
                EventView::Receive { peer: server.id, channel_id, packet: echo },
            )
            &&& heard.send_error(channel_id, echo) is None
            &&& answered.dispatched == client.dispatched.push(
                EventView::Receive { peer: client.id, channel_id, packet: echo },
            )
        }),
{
    let asked = client.after_send(channel_id, packet);
    let question = client.send_commands(channel_id, packet)[0];
    let heard = server.after_handling(question, sent_time, now);
    let echo = PacketView { data: packet.data, flags: PacketFlags::spec_reliable() };
    lemma_packet_is_received(client, server, channel_id, packet, sent_time, now);
    lemma_one_send(client, channel_id, packet);
    assert(heard.send_error(channel_id, echo) is None);
    lemma_packet_is_received(heard, asked, channel_id, echo, sent_time, now);
}

} // verus!
