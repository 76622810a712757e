//! What holds of the commands of a peer whatever happens to it.

use vstd::prelude::*;
use crate::channel::reassembly::spec_with_piece;
use crate::channel::spec_advance;
use crate::peer::send::spec_fragment_length;
use crate::packet::PacketView;
use crate::peer::expiry::spec_mark;
use crate::datagram::{commands_bytes, lemma_commands_bytes_push};
use crate::peer::flush::{
    spec_acknowledge_command, spec_pack_acknowledgements, spec_pack_commands, spec_pack_resends,
    spec_room, PackedCommands, PROTOCOL_HEADER_SIZE,
};
use crate::peer::Acknowledgement;
use crate::wire::lemma_bytes_len;
use crate::peer::send::Carriage;
use crate::peer::{PeerState, PeerView, SentView};
use crate::timeout::TimeoutPolicy;
use crate::wire::CommandView;

verus! {

/// Whether the commands that await acknowledgement in `before` still do so
/// in `after`, at their places.
pub open spec fn spec_still_sent(before: Seq<SentView>, after: Seq<SentView>) -> bool {
    &&& before.len() <= after.len()
    &&& forall|i: int| 0 <= i < before.len() ==> (#[trigger] after[i]).command == before[i].command
}

/// Marking commands to be sent again takes none of them away.
proof fn lemma_mark_keeps(
    sent: Seq<SentView>,
    i: int,
    policy: TimeoutPolicy,
    earliest: u32,
    now: u32,
    count: int,
)
    requires
        0 <= i,
    ensures
        spec_still_sent(sent, spec_mark(sent, i, policy, earliest, now, count).sent),
        spec_mark(sent, i, policy, earliest, now, count).sent.len() == sent.len(),
    decreases sent.len() - i,
{
    if i < sent.len() {
        if !sent[i].resend && policy.spec_verdict(sent[i].timing, earliest, now)
            == crate::timeout::Verdict::Resend {
            let marked = sent.update(
                i,
                SentView {
                    timing: sent[i].timing.spec_resent(now, policy.limit),
                    resend: true,
                    ..sent[i]
                },
            );
            lemma_mark_keeps(marked, i + 1, policy, earliest, now, count + 1);
            let done = spec_mark(marked, i + 1, policy, earliest, now, count + 1).sent;
            assert forall|k: int| 0 <= k < sent.len() implies (#[trigger] done[k]).command
                == sent[k].command by {
                assert(marked[k].command == sent[k].command);
            }
        } else {
            lemma_mark_keeps(sent, i + 1, policy, earliest, now, count);
        }
    }
}

/// A reliable command stays among those that await acknowledgement through
/// the timeout phase, unless the peer is given up.
pub proof fn lemma_timeouts_keep_commands(peer: PeerView, now: u32)
    requires
        !peer.timed_out(now),
    ensures
        spec_still_sent(peer.sent, peer.after_timeouts(now).sent),
        peer.after_timeouts(now).sent.len() == peer.sent.len(),
{
    if peer.sent.len() > 0 {
        lemma_mark_keeps(peer.sent, 0, peer.timeouts, peer.sent[0].timing.sent_time, now, 0);
    }
}

/// Packing the commands that are due again takes none of them away.
proof fn lemma_resends_keep(sent: Seq<SentView>, i: int, packed: Seq<CommandView>, mtu: u32)
    requires
        0 <= i,
    ensures
        spec_still_sent(sent, spec_pack_resends(sent, i, packed, mtu).sent),
        spec_pack_resends(sent, i, packed, mtu).sent.len() == sent.len(),
    decreases sent.len() - i,
{
    if i < sent.len() {
        if !sent[i].resend {
            lemma_resends_keep(sent, i + 1, packed, mtu);
        } else if crate::peer::flush::spec_room(packed, sent[i].command, mtu) {
            let cleared = sent.update(i, SentView { resend: false, ..sent[i] });
            lemma_resends_keep(cleared, i + 1, packed.push(sent[i].command), mtu);
            let done = spec_pack_resends(cleared, i + 1, packed.push(sent[i].command), mtu).sent;
            assert forall|k: int| 0 <= k < sent.len() implies (#[trigger] done[k]).command
                == sent[k].command by {
                assert(cleared[k].command == sent[k].command);
            }
        }
    }
}

/// Packing the commands that wait to be sent takes none away that awaits
/// acknowledgement.
proof fn lemma_commands_keep(
    waiting: Seq<CommandView>,
    so_far: PackedCommands,
    window: int,
    mtu: u32,
    now: u32,
    timeout: u32,
)
    ensures
        spec_still_sent(
            so_far.sent,
            spec_pack_commands(waiting, so_far, window, mtu, now, timeout).sent,
        ),
    decreases waiting.len(),
{
    if waiting.len() > 0 {
        let c = waiting[0];
        if c.header.acknowledge && (so_far.staged.len() > 0 || so_far.in_transit + c.data.len()
            > window) {
            lemma_commands_keep(
                waiting.drop_first(),
                PackedCommands { staged: so_far.staged.push(c), ..so_far },
                window,
                mtu,
                now,
                timeout,
            );
        } else if !crate::peer::flush::spec_room(so_far.packed, c, mtu) {
        } else if c.header.acknowledge {
            let entry = SentView {
                command: c,
                timing: crate::timeout::Retransmission::spec_first(now, timeout),
                resend: false,
            };
            let next = PackedCommands {
                packed: so_far.packed.push(c),
                sent: so_far.sent.push(entry),
                in_transit: so_far.in_transit + c.data.len(),
                ..so_far
            };
            lemma_commands_keep(waiting.drop_first(), next, window, mtu, now, timeout);
            let done = spec_pack_commands(waiting.drop_first(), next, window, mtu, now, timeout).sent;
            assert forall|k: int| 0 <= k < so_far.sent.len() implies (#[trigger] done[k]).command
                == so_far.sent[k].command by {
                assert(next.sent[k] == so_far.sent[k]);
            }
        } else {
            lemma_commands_keep(
                waiting.drop_first(),
                PackedCommands { packed: so_far.packed.push(c), ..so_far },
                window,
                mtu,
                now,
                timeout,
            );
        }
    }
}

/// A reliable command stays among those that await acknowledgement while
/// datagrams are packed: sending it, or sending it again, does not take it
/// off the list.
pub proof fn lemma_packing_keeps_commands(peer: PeerView, now: u32)
    ensures
        spec_still_sent(peer.sent, peer.after_packing(now).sent),
{
    let start = peer.primed(now);
    assert(start.sent == peer.sent);
    let resent = start.packed_resends();
    lemma_resends_keep(start.sent, 0, start.packed_acknowledgements().packed, start.session.mtu);
    let first = PackedCommands {
        packed: resent.packed,
        sent: resent.sent,
        staged: Seq::empty(),
        left: Seq::empty(),
        in_transit: start.counters.reliable_data_in_transit as int,
    };
    lemma_commands_keep(
        start.staged + start.outgoing,
        first,
        start.window(),
        start.session.mtu,
        now,
        start.rtt.spec_timeout(),
    );
    let done = peer.after_packing(now).sent;
    assert forall|i: int| 0 <= i < peer.sent.len() implies (#[trigger] done[i]).command
        == peer.sent[i].command by {
        assert(resent.sent[i].command == peer.sent[i].command);
    }
}

/// Queueing a packet takes no command away that awaits acknowledgement.
pub proof fn lemma_send_keeps_commands(peer: PeerView, channel_id: u8, packet: PacketView)
    ensures
        peer.after_send(channel_id, packet).sent == peer.sent,
{
}

/// Reliable packets are numbered in the order in which they are queued:
/// the commands that carry a packet take the sequence numbers that follow
/// the last one given out on the channel, one after the other, and the
/// next packet goes on behind them.
pub proof fn lemma_sends_are_numbered_in_order(peer: PeerView, channel_id: u8, packet: PacketView)
    requires
        peer.send_error(channel_id, packet) is None,
        peer.send_carriage(channel_id, packet) == Carriage::Reliable,
    ensures
        ({
            let last = peer.channels[channel_id as int].outgoing_reliable_sequence_number;
            let commands = peer.send_commands(channel_id, packet);
            let after = peer.after_send(channel_id, packet);
            &&& after.outgoing == peer.outgoing + commands
            &&& forall|i: int|
                0 <= i < commands.len() ==> {
                    &&& (#[trigger] commands[i]).header.reliable_sequence_number == spec_advance(
                        last,
                        i + 1,
                    )
                    &&& commands[i].header.channel_id == channel_id
                    &&& commands[i].header.acknowledge
                }
            &&& after.channels[channel_id as int].outgoing_reliable_sequence_number
                == spec_advance(last, commands.len() as int)
        }),
{
}

/// Whether the commands leave room in a datagram of the given MTU for the
/// protocol header with its sent time and for the checksum.
pub open spec fn spec_fits(packed: Seq<CommandView>, mtu: u32) -> bool {
    packed.len() == 0 || PROTOCOL_HEADER_SIZE + commands_bytes(packed).len() <= mtu
}

/// A command that has room in a datagram fits it.
proof fn lemma_room_fits(packed: Seq<CommandView>, next: CommandView, mtu: u32)
    requires
        spec_room(packed, next, mtu),
    ensures
        spec_fits(packed.push(next), mtu),
{
    lemma_commands_bytes_push(packed, next);
    lemma_bytes_len(next);
}

/// The acknowledgements that are packed fit the datagram.
proof fn lemma_acknowledgements_fit(
    waiting: Seq<Acknowledgement>,
    packed: Seq<CommandView>,
    mtu: u32,
)
    requires
        spec_fits(packed, mtu),
    ensures
        spec_fits(spec_pack_acknowledgements(waiting, packed, mtu).packed, mtu),
    decreases waiting.len(),
{
    if waiting.len() > 0 && spec_room(packed, spec_acknowledge_command(waiting[0]), mtu) {
        lemma_room_fits(packed, spec_acknowledge_command(waiting[0]), mtu);
        lemma_acknowledgements_fit(
            waiting.drop_first(),
            packed.push(spec_acknowledge_command(waiting[0])),
            mtu,
        );
    }
}

/// The commands that are packed again fit the datagram.
proof fn lemma_resends_fit(sent: Seq<SentView>, i: int, packed: Seq<CommandView>, mtu: u32)
    requires
        spec_fits(packed, mtu),
    ensures
        spec_fits(spec_pack_resends(sent, i, packed, mtu).packed, mtu),
    decreases sent.len() - i,
{
    if 0 <= i < sent.len() {
        if !sent[i].resend {
            lemma_resends_fit(sent, i + 1, packed, mtu);
        } else if spec_room(packed, sent[i].command, mtu) {
            lemma_room_fits(packed, sent[i].command, mtu);
            lemma_resends_fit(
                sent.update(i, SentView { resend: false, ..sent[i] }),
                i + 1,
                packed.push(sent[i].command),
                mtu,
            );
        }
    }
}

/// The commands that are packed for the first time fit the datagram.
proof fn lemma_commands_fit(
    waiting: Seq<CommandView>,
    so_far: PackedCommands,
    window: int,
    mtu: u32,
    now: u32,
    timeout: u32,
)
    requires
        spec_fits(so_far.packed, mtu),
    ensures
        spec_fits(spec_pack_commands(waiting, so_far, window, mtu, now, timeout).packed, mtu),
    decreases waiting.len(),
{
    if waiting.len() > 0 {
        let c = waiting[0];
        if c.header.acknowledge && (so_far.staged.len() > 0 || so_far.in_transit + c.data.len()
            > window) {
            lemma_commands_fit(
                waiting.drop_first(),
                PackedCommands { staged: so_far.staged.push(c), ..so_far },
                window,
                mtu,
                now,
                timeout,
            );
        } else if !spec_room(so_far.packed, c, mtu) {
        } else if c.header.acknowledge {
            lemma_room_fits(so_far.packed, c, mtu);
            lemma_commands_fit(
                waiting.drop_first(),
                PackedCommands {
                    packed: so_far.packed.push(c),
                    sent: so_far.sent.push(
                        SentView {
                            command: c,
                            timing: crate::timeout::Retransmission::spec_first(now, timeout),
                            resend: false,
                        },
                    ),
                    in_transit: so_far.in_transit + c.data.len(),
                    ..so_far
                },
                window,
                mtu,
                now,
                timeout,
            );
        } else {
            lemma_room_fits(so_far.packed, c, mtu);
            lemma_commands_fit(
                waiting.drop_first(),
                PackedCommands { packed: so_far.packed.push(c), ..so_far },
                window,
                mtu,
                now,
                timeout,
            );
        }
    }
}

/// No datagram that a peer packs exceeds the MTU of the session, and each
/// leaves the four bytes that a checksum takes.
pub proof fn lemma_datagram_fits_mtu(peer: PeerView, now: u32)
    requires
        peer.outbox.len() == 0,
        peer.flush_output(now) is Some,
    ensures
        peer.flush_output(now)->0.bytes.len() + 4 <= peer.session.mtu,
{
    let start = peer.primed(now);
    let mtu = start.session.mtu;
    assert(mtu == peer.session.mtu);
    lemma_acknowledgements_fit(start.acknowledgements, Seq::empty(), mtu);
    lemma_resends_fit(start.sent, 0, start.packed_acknowledgements().packed, mtu);
    lemma_commands_fit(
        start.staged + start.outgoing,
        PackedCommands {
            packed: start.packed_resends().packed,
            sent: start.packed_resends().sent,
            staged: Seq::empty(),
            left: Seq::empty(),
            in_transit: start.counters.reliable_data_in_transit as int,
        },
        start.window(),
        mtu,
        now,
        start.rtt.spec_timeout(),
    );
    let packed = start.packed_commands(now).packed;
    let datagram = peer.datagram_of(packed, now);
    assert(datagram.header.bytes().len() <= 4);
    assert(datagram.bytes().len() == datagram.header.bytes().len() + commands_bytes(packed).len());
}

/// The fragments that carry a large reliable packet are the pieces of its
/// payload: taken in by the channel of the receiver, command `i` of them
/// is piece `i` of the payload, cut at what fits a datagram, of the message
/// that starts behind the last sequence number given out by the sender.
pub proof fn lemma_fragments_are_pieces(
    sender: PeerView,
    channel_id: u8,
    packet: PacketView,
    receiver: PeerView,
    i: int,
)
    requires
        sender.send_error(channel_id, packet) is None,
        sender.send_carriage(channel_id, packet) == Carriage::Reliable,
        packet.data.len() > spec_fragment_length(sender.session.mtu),
        0 <= i < sender.send_count(packet),
    ensures
        receiver.channel_with(sender.send_commands(channel_id, packet)[i]) == spec_with_piece(
            receiver.channels[channel_id as int],
            packet.data,
            spec_fragment_length(sender.session.mtu),
            spec_advance(
                sender.channels[channel_id as int].outgoing_reliable_sequence_number,
                1,
            ),
            i,
        ),
{
}

/// Every reliable command that reaches a peer with a session is
/// acknowledged, be it new, a duplicate or out of the window: the peer
/// takes note of its channel and sequence number, whatever else it does
/// with the command.
pub proof fn lemma_reliable_commands_are_acknowledged(
    peer: PeerView,
    command: CommandView,
    sent_time: u16,
    now: u32,
)
    requires
        command.wf(),
        command.header.acknowledge,
        peer.after_command(command, Some(sent_time), now).live(),
    ensures
        ({
            let handled = peer.after_command(command, Some(sent_time), now);
            peer.after_handling(command, Some(sent_time), now).acknowledgements
                == handled.acknowledgements.push(
                Acknowledgement {
                    channel_id: command.header.channel_id,
                    reliable_sequence_number: command.header.reliable_sequence_number,
                    sent_time,
                },
            )
        }),
{
}

/// A command whose timeout has run out is marked to be sent again, unless
/// the peer is given up: a reliable command is sent until it is
/// acknowledged.
pub proof fn lemma_overdue_command_is_sent_again(peer: PeerView, now: u32, i: int)
    requires
        peer.live(),
        !peer.timed_out(now),
        0 <= i < peer.sent.len(),
        peer.timeouts.spec_verdict(peer.sent[i].timing, peer.sent[0].timing.sent_time, now)
            == crate::timeout::Verdict::Resend,
    ensures
        peer.after_timeouts(now).sent[i].resend,
        peer.after_timeouts(now).sent[i].command == peer.sent[i].command,
{
    lemma_mark_marks(peer.sent, 0, peer.timeouts, peer.sent[0].timing.sent_time, now, 0, i);
}

/// Marking reaches every command behind the place where it starts, and
/// leaves the commands before that place as they are.
proof fn lemma_mark_marks(
    sent: Seq<SentView>,
    from: int,
    policy: TimeoutPolicy,
    earliest: u32,
    now: u32,
    count: int,
    i: int,
)
    requires
        0 <= from,
        0 <= i < sent.len(),
    ensures
        i < from ==> spec_mark(sent, from, policy, earliest, now, count).sent[i] == sent[i],
        from <= i && policy.spec_verdict(sent[i].timing, earliest, now)
            == crate::timeout::Verdict::Resend ==> spec_mark(
            sent,
            from,
            policy,
            earliest,
            now,
            count,
        ).sent[i].resend,
        spec_mark(sent, from, policy, earliest, now, count).sent[i].command == sent[i].command,
        spec_mark(sent, from, policy, earliest, now, count).sent.len() == sent.len(),
    decreases sent.len() - from,
{
    if from < sent.len() {
        if !sent[from].resend && policy.spec_verdict(sent[from].timing, earliest, now)
            == crate::timeout::Verdict::Resend {
            let marked = sent.update(
                from,
                SentView {
                    timing: sent[from].timing.spec_resent(now, policy.limit),
                    resend: true,
                    ..sent[from]
                },
            );
            lemma_mark_marks(marked, from + 1, policy, earliest, now, count + 1, i);
        } else {
            lemma_mark_marks(sent, from + 1, policy, earliest, now, count, i);
        }
    }
}

/// A session never has the nonce of the session before it.
///
/// Let a peer whose session has ended, and which has been cleared, be
/// connected again, whatever number the generator of its host gives out.
/// Then the nonce of the new session is not the nonce of the old one, and
/// an answer that carries the old nonce is not taken for an answer to the
/// new connect.
pub proof fn lemma_new_session_has_new_nonce(
    peer: PeerView,
    address: crate::packet::Address,
    channel_count: usize,
    data: u32,
    drawn: u32,
    host: crate::peer::control::HostSettings,
    stale: crate::wire::Handshake,
)
    requires
        stale.connect_id == peer.session.connect_id,
    ensures
        ({
            let again = peer.cleared().after_connect(address, channel_count, data, drawn, host);
            &&& again.state == PeerState::Connecting
            &&& again.session.connect_id != peer.session.connect_id
            &&& !again.verifies(stale)
        }),
{
}

/// A session that a peer accepts never has the numbers of the session
/// before it: whatever the connect asks for, the session numbers that the
/// peer takes differ from the ones it had, in both directions. So a
/// datagram that carries the number of the old session does not carry that
/// of the new one.
pub proof fn lemma_accepted_session_has_new_numbers(
    peer: PeerView,
    address: crate::packet::Address,
    header: crate::wire::CommandHeader,
    handshake: crate::wire::Handshake,
    data: u32,
    sent_time: Option<u16>,
    host: crate::peer::control::HostSettings,
)
    requires
        peer.state == PeerState::Disconnected,
    ensures
        ({
            let again = peer.after_accept(address, header, handshake, data, sent_time, host);
            &&& again.state == PeerState::AcknowledgingConnect
            &&& again.session.connect_id == handshake.connect_id
            &&& again.session.incoming_session_id != peer.session.incoming_session_id
            &&& again.session.outgoing_session_id != peer.session.outgoing_session_id
            &&& again.session.incoming_session_id <= 3
            &&& again.session.outgoing_session_id <= 3
        }),
{
}

/// A disconnect ends the session on both sides, and both applications
/// hear of it.
///
/// Let the application ask a peer in the connected family of states to
/// disconnect, with `data`. The peer begins to disconnect, and the
/// disconnect command is the one command it has to send.
///
/// When the command reaches the remote peer, in whatever state this one
/// has a session, the remote peer is a zombie, and the one event that
/// waits for its application says that the session has ended, with no
/// data.
///
/// Let `waiting` be the first peer once it has sent the command, which now
/// awaits acknowledgement. When the acknowledgement reaches it, the peer
/// is a zombie, and the one event that waits for its application says that
/// the session has ended, with the data that the application gave.
pub proof fn lemma_disconnect_is_heard_on_both_sides(
    local: PeerView,
    remote: PeerView,
    waiting: PeerView,
    data: u32,
    sent_time: Option<u16>,
    received_sent_time: u16,
    now: u32,
)
    requires
        local.state.spec_in_connected_family(),
        remote.state != PeerState::Disconnected,
        remote.state != PeerState::Zombie,
        waiting.id == local.id,
        waiting.state == local.after_disconnect(data).state,
        waiting.session.event_data == local.after_disconnect(data).session.event_data,
        waiting.sent.len() == 1,
        waiting.sent[0].command == local.after_disconnect(data).outgoing[0],
    ensures
        ({
            let parting = local.after_disconnect(data);
            let command = crate::peer::control::spec_control(
                true,
                spec_advance(local.control_sequence_number, 1),
                crate::wire::CommandBody::Disconnect { data },
            );
            let heard = remote.after_handling(command, sent_time, now);
            let acknowledgement = CommandView {
                header: crate::wire::CommandHeader {
                    acknowledge: false,
                    unsequenced: false,
                    channel_id: command.header.channel_id,
                    reliable_sequence_number: command.header.reliable_sequence_number,
                },
                body: crate::wire::CommandBody::Acknowledge {
                    received_reliable_sequence_number: command.header.reliable_sequence_number,
                    received_sent_time,
                },
                data: Seq::empty(),
            };
            let ended = waiting.after_handling(acknowledgement, sent_time, now);
            &&& parting.state == PeerState::Disconnecting
            &&& parting.outgoing == seq![command]
            &&& heard.state == PeerState::Zombie
            &&& heard.dispatched == seq![
                crate::peer::EventView::Disconnect { peer: remote.id, data: 0 },
            ]
            &&& ended.state == PeerState::Zombie
            &&& ended.dispatched == seq![
                crate::peer::EventView::Disconnect { peer: local.id, data },
            ]
        }),
{
    let parting = local.after_disconnect(data);
    let command = crate::peer::control::spec_control(
        true,
        spec_advance(local.control_sequence_number, 1),
        crate::wire::CommandBody::Disconnect { data },
    );
    assert(parting.outgoing =~= seq![command]);
    assert(command.wf());
    let heard = remote.after_handling(command, sent_time, now);
    assert(heard.dispatched =~= seq![
        crate::peer::EventView::Disconnect { peer: remote.id, data: 0 },
    ]);
    let sequence = command.header.reliable_sequence_number;
    assert(crate::peer::acknowledge::spec_find_sent(
        waiting.sent,
        command.header.channel_id,
        sequence,
    ) == 0);
    let settled = waiting.settled(0, now);
    assert(settled.state == PeerState::Disconnecting);
    assert(settled.id == waiting.id);
    assert(settled.session.event_data == data);
    let ended = settled.advanced_by(waiting.sent[0].command.body);
    assert(ended.dispatched =~= seq![
        crate::peer::EventView::Disconnect { peer: local.id, data },
    ]);
}

} // verus!
