//! A message that travels in fragments arrives as it was sent.
//!
//! A reliable message too large for one datagram is cut into pieces, each
//! carried under a sequence number of its own. Whatever the length of the
//! pieces, and in whatever order and however often they arrive, the channel
//! hands up the message once, when its last piece has come.

use vstd::prelude::*;
use crate::channel::{
    spec_advance, spec_ahead, spec_ready, spec_slot, spec_started, ChannelView, IncomingView,
    RELIABLE_WINDOW,
};
use crate::consts::PROTOCOL_MAXIMUM_PACKET_SIZE;
use crate::fragment::{
    lemma_after_pieces, lemma_complete_agreement, lemma_piece_bounds, spec_after_pieces,
    spec_fragment_count, spec_fresh, spec_piece, ReassemblyView,
};

verus! {

/// What feeding fragments to a channel yields.
pub struct Fed {
    /// The channel after the fragments.
    pub channel: ChannelView,
    /// The reliable messages that the channel has handed up on the way.
    pub delivered: Seq<Seq<u8>>,
}

/// The channel after piece `i` of `payload`, cut at `length` bytes, arrived
/// as a fragment of the message that starts at the sequence number `start`.
pub open spec fn spec_with_piece(
    c: ChannelView,
    payload: Seq<u8>,
    length: int,
    start: u16,
    i: int,
) -> ChannelView {
    c.with_fragment(
        start,
        spec_fragment_count(payload.len() as int, length) as u32,
        i as u32,
        payload.len() as u32,
        (i * length) as u32,
        spec_piece(payload, length, i),
    )
}

/// Feeds the pieces of `payload` with the numbers in `order` to the
/// channel, one after the other, and lets the channel deliver after each.
pub open spec fn spec_feed(
    c: ChannelView,
    payload: Seq<u8>,
    length: int,
    start: u16,
    order: Seq<int>,
) -> Fed
    decreases order.len(),
{
    if order.len() == 0 {
        Fed { channel: c, delivered: Seq::empty() }
    } else {
        let before = spec_feed(c, payload, length, start, order.drop_last());
        let arrived = spec_with_piece(before.channel, payload, length, start, order.last());
        Fed {
            channel: arrived.after_deliveries(),
            delivered: before.delivered + arrived.ready_payloads(),
        }
    }
}

/// The waiting message that the pieces in `order` make up.
pub open spec fn spec_assembled(
    payload: Seq<u8>,
    length: int,
    start: u16,
    order: Seq<int>,
) -> IncomingView {
    IncomingView {
        reliable_sequence_number: start,
        unreliable_sequence_number: 0,
        assembly: spec_after_pieces(
            spec_fresh(payload.len(), spec_fragment_count(payload.len() as int, length) as nat),
            payload,
            length,
            order,
        ),
    }
}

/// A piece that is offered to a complete reassembly leaves it as it is.
proof fn lemma_complete_stays(r: ReassemblyView, number: u32, offset: u32, data: Seq<u8>)
    requires
        r.complete(),
        r.received.len() == r.fragment_count,
    ensures
        r.with_piece(number, offset, data) == r,
{
    if r.takes(number, offset, data) {
        assert(r.received[number as int]);
    }
}

/// What the channel holds after any run of pieces of one message: nothing
/// has been delivered and the pieces wait together, or the message has been
/// delivered, once, and nothing of it waits.
#[verifier::rlimit(50)]
proof fn lemma_fed(c: ChannelView, payload: Seq<u8>, length: int, order: Seq<int>)
    requires
        c.pending_reliable.len() == 0,
        0 < length,
        0 < payload.len() <= PROTOCOL_MAXIMUM_PACKET_SIZE,
        spec_fragment_count(payload.len() as int, length) <= RELIABLE_WINDOW,
        forall|j: int|
            0 <= j < order.len() ==> 0 <= #[trigger] order[j] < spec_fragment_count(
                payload.len() as int,
                length,
            ),
    ensures
        ({
            let last = c.incoming_reliable_sequence_number;
            let start = spec_advance(last, 1);
            let count = spec_fragment_count(payload.len() as int, length);
            let fed = spec_feed(c, payload, length, start, order);
            let whole = spec_assembled(payload, length, start, order);
            if order.len() == 0 {
                fed.channel == c && fed.delivered.len() == 0
            } else if whole.assembly.complete() {
                &&& fed.delivered == seq![payload]
                &&& fed.channel.pending_reliable.len() == 0
                &&& fed.channel.incoming_reliable_sequence_number == spec_advance(last, count)
            } else {
                &&& fed.delivered.len() == 0
                &&& fed.channel.pending_reliable == seq![whole]
                &&& fed.channel.incoming_reliable_sequence_number == last
            }
        }),
    decreases order.len(),
{
    let last = c.incoming_reliable_sequence_number;
    let start = spec_advance(last, 1);
    let total = payload.len() as int;
    let count = spec_fragment_count(total, length);
    if order.len() > 0 {
        let earlier = order.drop_last();
        let i = order.last();
        assert forall|j: int| 0 <= j < earlier.len() implies 0 <= #[trigger] earlier[j]
            < count by {
            assert(earlier[j] == order[j]);
        }
        assert(0 <= order[order.len() - 1] < count);
        lemma_fed(c, payload, length, earlier);
        lemma_after_pieces(payload, length, earlier);
        lemma_after_pieces(payload, length, order);
        lemma_piece_bounds(total, length, i);
        assert(1 <= count <= total) by {
            assert(0 <= i < count);
            assert(i * length >= i) by (nonlinear_arith)
                requires
                    0 <= i,
                    0 < length,
            ;
            lemma_piece_bounds(total, length, count - 1);
            assert((count - 1) * length >= count - 1) by (nonlinear_arith)
                requires
                    0 <= count - 1,
                    0 < length,
            ;
        }
        let before = spec_feed(c, payload, length, start, earlier);
        let were = spec_assembled(payload, length, start, earlier);
        let whole = spec_assembled(payload, length, start, order);
        let piece = spec_piece(payload, length, i);
        let offset = i * length;
        assert(i as u32 == i && offset as u32 == offset && count as u32 == count && total as u32
            == total);
        assert(whole.assembly == were.assembly.with_piece(i as u32, offset as u32, piece));
        let arrived = spec_with_piece(before.channel, payload, length, start, i);
        let from = before.channel.incoming_reliable_sequence_number;
        let pending = before.channel.pending_reliable;
        if earlier.len() > 0 && were.assembly.complete() {
            // the message has been delivered: what comes now is dropped
            lemma_complete_stays(were.assembly, i as u32, offset as u32, piece);
            assert(whole.assembly.complete());
            assert(from == spec_advance(last, count));
            assert(spec_slot(pending, from, spec_ahead(from, start)) == 0);
            assert(!before.channel.has_room_for(start, count));
            assert(arrived == before.channel);
            assert(arrived.ready() == 0);
            assert(arrived.pending_reliable.take(0) =~= Seq::<IncomingView>::empty());
            assert(arrived.ready_payloads() =~= Seq::<Seq<u8>>::empty());
            assert(before.delivered + arrived.ready_payloads() =~= before.delivered);
            assert(arrived.after_deliveries().pending_reliable =~= pending);
        } else {
            assert(from == last);
            assert(spec_ahead(from, start) == 1);
            if earlier.len() == 0 {
                // the first piece starts the message
                assert(pending.len() == 0);
                assert(spec_slot(pending, from, 1) == 0);
                assert(before.channel.has_room_for(start, count));
                assert(whole.assembly == spec_started(
                    total as u32,
                    count as u32,
                    i as u32,
                    offset as u32,
                    piece,
                )) by {
                    assert(earlier =~= Seq::<int>::empty());
                }
                assert(arrived.pending_reliable =~= seq![whole]);
            } else {
                // a later piece joins the pieces that wait
                assert(pending == seq![were]);
                assert(spec_slot(pending, from, 1) == 0);
                assert(arrived.pending_reliable =~= seq![whole]);
            }
            assert(arrived.incoming_reliable_sequence_number == last);
            assert(arrived.pending_reliable[0] == whole);
            assert(arrived.pending_reliable.drop_first() =~= Seq::<IncomingView>::empty());
            if whole.assembly.complete() {
                lemma_complete_agreement(whole.assembly, payload, length);
                assert(spec_ready(
                    arrived.pending_reliable.drop_first(),
                    spec_advance(last, whole.span()),
                ) == 0);
                assert(arrived.ready() == 1);
                assert(arrived.pending_reliable.take(1) =~= seq![whole]);
                assert(arrived.ready_payloads() =~= seq![payload]);
                assert(before.delivered + arrived.ready_payloads() =~= seq![payload]);
                assert(arrived.after_deliveries().pending_reliable =~= Seq::<
                    IncomingView,
                >::empty());
                assert(crate::channel::spec_after_run(
                    arrived.pending_reliable.drop_first(),
                    spec_advance(last, whole.span()),
                    0,
                ) == spec_advance(last, whole.span()));
            } else {
                assert(arrived.ready() == 0);
                assert(arrived.pending_reliable.take(0) =~= Seq::<IncomingView>::empty());
                assert(arrived.ready_payloads() =~= Seq::<Seq<u8>>::empty());
                assert(before.delivered + arrived.ready_payloads() =~= Seq::<Seq<u8>>::empty());
                assert(arrived.after_deliveries().pending_reliable =~= seq![whole]);
            }
        }
    }
}

/// Fragmentation is invisible to the application.
///
/// Let nothing wait on a channel, and let a message be cut into pieces of
/// any length such that the pieces do not outnumber the window. Let the
/// pieces arrive as fragments in any order and as often as the network
/// likes. Once each piece has arrived, the channel has handed up the
/// message, whole and once, and nothing else; nothing of it waits any
/// more, and the next message follows behind its last fragment.
pub proof fn lemma_fragments_restore_message(
    c: ChannelView,
    payload: Seq<u8>,
    length: int,
    order: Seq<int>,
)
    requires
        c.pending_reliable.len() == 0,
        0 < length,
        0 < payload.len() <= PROTOCOL_MAXIMUM_PACKET_SIZE,
        spec_fragment_count(payload.len() as int, length) <= RELIABLE_WINDOW,
        forall|j: int|
            0 <= j < order.len() ==> 0 <= #[trigger] order[j] < spec_fragment_count(
                payload.len() as int,
                length,
            ),
        forall|i: int|
            0 <= i < spec_fragment_count(payload.len() as int, length) ==> order.contains(i),
    ensures
        ({
            let last = c.incoming_reliable_sequence_number;
            let fed = spec_feed(c, payload, length, spec_advance(last, 1), order);
            &&& fed.delivered == seq![payload]
            &&& fed.channel.pending_reliable.len() == 0
            &&& fed.channel.incoming_reliable_sequence_number == spec_advance(
                last,
                spec_fragment_count(payload.len() as int, length),
            )
        }),
{
    let total = payload.len() as int;
    let count = spec_fragment_count(total, length);
    lemma_fed(c, payload, length, order);
    crate::fragment::lemma_reassembly_restores_payload(payload, length, order);
    crate::fragment::lemma_byte_in_piece(total, length, 0);
    assert(order.contains(0));
}

} // verus!
