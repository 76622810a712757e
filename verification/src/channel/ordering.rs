//! Reliable delivery is in order and exactly once.
//!
//! A sender numbers the messages of a channel 1, 2, 3 and so on, modulo
//! 2^16. Whatever the network does with them on the way, be it loss,
//! duplication or reordering, the receiving channel hands them up in the
//! order in which they were sent, each once: what it has delivered is at
//! every moment the beginning of what was sent.
//!
//! The sequence numbers have 16 bits, so a copy that is older by half the
//! sequence space would be taken for a new message. A sender never has so
//! many messages in flight; the law below asks it of the network too.

use vstd::prelude::*;
use crate::channel::{
    lemma_ahead_after_advance, lemma_insert_keeps_order, lemma_order_after_delivery, lemma_slot,
    spec_advance, spec_after_run, spec_ahead, spec_in_order, spec_payloads, spec_ready, spec_slot,
    spec_whole, ChannelView, IncomingView, RELIABLE_WINDOW,
};

verus! {

/// The sequence number of the message with the given number, where the
/// first message has the number 1.
pub open spec fn spec_sequence_of(number: int) -> u16 {
    (number % 0x1_0000) as u16
}

/// Whether the waiting messages are messages of the stream, each under its
/// own sequence number, where `delivered` of the stream have been delivered
/// and `from` is the sequence number of the last of them.
pub open spec fn spec_holds_stream(
    pending: Seq<IncomingView>,
    from: u16,
    stream: Seq<Seq<u8>>,
    delivered: int,
) -> bool {
    &&& 0 <= delivered <= stream.len()
    &&& from == spec_sequence_of(delivered)
    &&& spec_in_order(pending, from)
    &&& forall|i: int|
        0 <= i < pending.len() ==> {
            let e = #[trigger] pending[i];
            let number = delivered + spec_ahead(from, e.reliable_sequence_number);
            &&& number <= stream.len()
            &&& e.span() == 1
            &&& e.assembly.complete()
            &&& e.assembly.buffer == stream[number - 1]
        }
}

/// Whether the channel is a faithful receiver of the stream of which
/// `delivered` messages have been delivered.
pub open spec fn spec_faithful(c: ChannelView, stream: Seq<Seq<u8>>, delivered: int) -> bool {
    spec_holds_stream(c.pending_reliable, c.incoming_reliable_sequence_number, stream, delivered)
}

/// A channel on which nothing has been received is a faithful receiver of
/// every stream.
pub proof fn lemma_new_channel_is_faithful(stream: Seq<Seq<u8>>)
    ensures
        spec_faithful(ChannelView::spec_new(), stream, 0),
{
}

/// A copy of a message of the stream that arrives keeps the channel a
/// faithful receiver, whether the copy is taken in or dropped.
proof fn lemma_arrival_keeps_faith(c: ChannelView, stream: Seq<Seq<u8>>, delivered: int, number: int)
    requires
        spec_faithful(c, stream, delivered),
        1 <= number <= stream.len(),
        delivered - 0x8000 < number <= delivered + RELIABLE_WINDOW,
    ensures
        spec_faithful(
            c.with_reliable(spec_sequence_of(number), stream[number - 1]),
            stream,
            delivered,
        ),
{
    let from = c.incoming_reliable_sequence_number;
    let sequence = spec_sequence_of(number);
    let data = stream[number - 1];
    let after = c.with_reliable(sequence, data);
    if c.has_room_for(sequence, 1) {
        let distance = spec_ahead(from, sequence);
        assert(distance == number - delivered);
        let entry = spec_whole(sequence, 0, data);
        let slot = spec_slot(c.pending_reliable, from, distance);
        lemma_slot(c.pending_reliable, from, distance);
        lemma_insert_keeps_order(c.pending_reliable, from, entry);
        assert forall|i: int| 0 <= i < after.pending_reliable.len() implies {
            let e = #[trigger] after.pending_reliable[i];
            let at = delivered + spec_ahead(from, e.reliable_sequence_number);
            &&& at <= stream.len()
            &&& e.span() == 1
            &&& e.assembly.complete()
            &&& e.assembly.buffer == stream[at - 1]
        } by {
            if i < slot {
                assert(after.pending_reliable[i] == c.pending_reliable[i]);
            } else if i > slot {
                assert(after.pending_reliable[i] == c.pending_reliable[i - 1]);
            } else {
                assert(after.pending_reliable[i] == entry);
            }
        }
    }
}

/// The messages that a faithful receiver delivers in one run are the next
/// messages of the stream, and the receiver stays faithful.
proof fn lemma_run_keeps_faith(
    pending: Seq<IncomingView>,
    from: u16,
    stream: Seq<Seq<u8>>,
    delivered: int,
)
    requires
        spec_holds_stream(pending, from, stream, delivered),
    ensures
        ({
            let count = spec_ready(pending, from);
            &&& 0 <= count <= pending.len()
            &&& delivered + count <= stream.len()
            &&& spec_payloads(pending.take(count)) == stream.subrange(delivered, delivered + count)
            &&& spec_holds_stream(
                pending.skip(count),
                spec_after_run(pending, from, count),
                stream,
                delivered + count,
            )
        }),
    decreases pending.len(),
{
    let count = spec_ready(pending, from);
    if pending.len() > 0 && spec_ahead(from, pending[0].reliable_sequence_number) == 1
        && pending[0].assembly.complete() {
        let head = pending[0];
        let rest = pending.drop_first();
        let next = spec_advance(from, head.span());
        lemma_order_after_delivery(pending, from);
        assert forall|i: int| 0 <= i < rest.len() implies {
            let e = #[trigger] rest[i];
            let at = delivered + 1 + spec_ahead(next, e.reliable_sequence_number);
            &&& at <= stream.len()
            &&& e.span() == 1
            &&& e.assembly.complete()
            &&& e.assembly.buffer == stream[at - 1]
        } by {
            assert(rest[i] == pending[i + 1]);
            assert(spec_ahead(from, pending[0].reliable_sequence_number) + pending[0].span()
                <= spec_ahead(from, pending[i + 1].reliable_sequence_number));
            lemma_ahead_after_advance(from, 1, pending[i + 1].reliable_sequence_number);
        }
        lemma_run_keeps_faith(rest, next, stream, delivered + 1);
        let more = spec_ready(rest, next);
        assert(count == 1 + more);
        assert(pending.skip(count) =~= rest.skip(more));
        assert(spec_after_run(pending, from, count) == spec_after_run(rest, next, more));
        assert(spec_payloads(pending.take(count)) =~= stream.subrange(
            delivered,
            delivered + count,
        )) by {
            assert(pending.take(count) =~= seq![head] + rest.take(more));
            assert forall|k: int| 0 <= k < count implies spec_payloads(pending.take(count))[k]
                == stream[delivered + k] by {
                if k > 0 {
                    assert(pending.take(count)[k] == rest.take(more)[k - 1]);
                    assert(spec_payloads(rest.take(more))[k - 1] == stream.subrange(
                        delivered + 1,
                        delivered + 1 + more,
                    )[k - 1]);
                }
            }
        }
    } else {
        assert(count == 0);
        assert(pending.skip(0) =~= pending);
        assert(spec_payloads(pending.take(0)) =~= stream.subrange(delivered, delivered));
    }
}

/// Reliable delivery is in order and exactly once.
///
/// Let a channel be a faithful receiver of a stream of which it has
/// delivered the first `delivered` messages. Let a copy of any message of
/// the stream arrive that is neither half the sequence space behind the
/// last delivered one nor beyond the window ahead of it. Then what the
/// channel delivers now are the messages of the stream that follow the ones
/// delivered, in their order and without a gap, and the channel is a
/// faithful receiver still. So whatever copies arrive in whatever order,
/// the messages delivered are at every moment the beginning of the stream.
pub proof fn lemma_reliable_delivery_in_order(
    c: ChannelView,
    stream: Seq<Seq<u8>>,
    delivered: int,
    number: int,
)
    requires
        spec_faithful(c, stream, delivered),
        1 <= number <= stream.len(),
        delivered - 0x8000 < number <= delivered + RELIABLE_WINDOW,
    ensures
        ({
            let arrived = c.with_reliable(spec_sequence_of(number), stream[number - 1]);
            let count = arrived.ready();
            &&& 0 <= count
            &&& delivered + count <= stream.len()
            &&& arrived.ready_payloads() == stream.subrange(delivered, delivered + count)
            &&& spec_faithful(arrived.after_deliveries(), stream, delivered + count)
        }),
{
    lemma_arrival_keeps_faith(c, stream, delivered, number);
    let arrived = c.with_reliable(spec_sequence_of(number), stream[number - 1]);
    lemma_run_keeps_faith(
        arrived.pending_reliable,
        arrived.incoming_reliable_sequence_number,
        stream,
        delivered,
    );
}

/// A copy of a message that has been delivered changes nothing: no message
/// is delivered twice.
pub proof fn lemma_delivered_copy_is_dropped(
    c: ChannelView,
    stream: Seq<Seq<u8>>,
    delivered: int,
    number: int,
)
    requires
        spec_faithful(c, stream, delivered),
        1 <= number <= delivered,
        delivered - 0x8000 < number,
    ensures
        c.with_reliable(spec_sequence_of(number), stream[number - 1]) == c,
{
}

/// No message is stuck: when the message that follows the ones delivered
/// arrives at a faithful receiver, it is delivered at once, and with it the
/// messages that have waited behind it without a gap.
pub proof fn lemma_next_message_is_delivered(c: ChannelView, stream: Seq<Seq<u8>>, delivered: int)
    requires
        spec_faithful(c, stream, delivered),
        delivered < stream.len(),
    ensures
        ({
            let arrived = c.with_reliable(spec_sequence_of(delivered + 1), stream[delivered]);
            &&& arrived.ready() >= 1
            &&& arrived.ready_payloads()[0] == stream[delivered]
        }),
{
    let from = c.incoming_reliable_sequence_number;
    let sequence = spec_sequence_of(delivered + 1);
    let arrived = c.with_reliable(sequence, stream[delivered]);
    lemma_arrival_keeps_faith(c, stream, delivered, delivered + 1);
    lemma_slot(c.pending_reliable, from, 1);
    assert(spec_ahead(from, sequence) == 1);
    assert(spec_slot(c.pending_reliable, from, 1) == 0) by {
        if spec_slot(c.pending_reliable, from, 1) > 0 {
            assert(spec_ahead(from, c.pending_reliable[0].reliable_sequence_number) < 1);
        }
    }
    if c.has_room_for(sequence, 1) {
        assert(arrived.pending_reliable[0] == spec_whole(sequence, 0, stream[delivered]));
    } else {
        assert(c.pending_reliable.len() > 0);
        assert(spec_ahead(from, c.pending_reliable[0].reliable_sequence_number) >= 1);
        assert(spec_ahead(from, c.pending_reliable[0].reliable_sequence_number) == 1);
    }
    let head = arrived.pending_reliable[0];
    assert(spec_ahead(from, head.reliable_sequence_number) == 1);
    assert(head.assembly.complete());
    assert(head.assembly.buffer == stream[delivered]);
    lemma_run_keeps_faith(arrived.pending_reliable, from, stream, delivered);
    assert(arrived.ready() >= 1) by {
        lemma_ready_counts(
            arrived.pending_reliable.drop_first(),
            spec_advance(from, head.span()),
        );
    }
    assert(arrived.ready_payloads()[0] == stream.subrange(
        delivered,
        delivered + arrived.ready(),
    )[0]);
}

/// The messages that can be delivered are some of the waiting ones: their
/// number lies between none and all of them.
pub proof fn lemma_ready_counts(pending: Seq<IncomingView>, from: u16)
    ensures
        0 <= spec_ready(pending, from) <= pending.len(),
    decreases pending.len(),
{
    if pending.len() > 0 {
        lemma_ready_counts(pending.drop_first(), spec_advance(from, pending[0].span()));
    }
}

/// What a run of arrivals yields.
pub struct Arrived {
    /// The channel after the arrivals.
    pub channel: ChannelView,
    /// The reliable messages that the channel has handed up on the way, in
    /// the order in which it has.
    pub handed: Seq<Seq<u8>>,
}

/// The channel after copies of the messages of the stream with the given
/// numbers arrived one after the other, the channel delivering after each.
pub open spec fn spec_after_arrivals(
    c: ChannelView,
    stream: Seq<Seq<u8>>,
    arrivals: Seq<int>,
) -> Arrived
    decreases arrivals.len(),
{
    if arrivals.len() == 0 {
        Arrived { channel: c, handed: Seq::empty() }
    } else {
        let before = spec_after_arrivals(c, stream, arrivals.drop_last());
        let number = arrivals.last();
        let arrived = before.channel.with_reliable(spec_sequence_of(number), stream[number - 1]);
        Arrived {
            channel: arrived.after_deliveries(),
            handed: before.handed + arrived.ready_payloads(),
        }
    }
}

/// Whether each of the arrivals is a copy of a message of the stream that,
/// when it arrives, is neither half the sequence space behind the message
/// delivered last nor beyond the window ahead of it; `delivered` messages
/// have been delivered before the first arrival.
pub open spec fn spec_in_flight(
    c: ChannelView,
    stream: Seq<Seq<u8>>,
    delivered: int,
    arrivals: Seq<int>,
) -> bool
    decreases arrivals.len(),
{
    if arrivals.len() == 0 {
        true
    } else {
        let earlier = arrivals.drop_last();
        let so_far = delivered + spec_after_arrivals(c, stream, earlier).handed.len();
        &&& spec_in_flight(c, stream, delivered, earlier)
        &&& 1 <= arrivals.last() <= stream.len()
        &&& so_far - 0x8000 < arrivals.last() <= so_far + RELIABLE_WINDOW
    }
}

/// Whatever the network does, what a channel has delivered is the beginning
/// of what was sent.
///
/// Let copies of the messages of a stream arrive at a faithful receiver in
/// any order, any of them never, once or many times. Then the messages that
/// the channel has handed up, taken together, are messages of the stream in
/// their order, without a gap and without a repetition, from the first that
/// was not delivered before. So of two messages the one that was sent first
/// is delivered first, and none is delivered twice.
pub proof fn lemma_deliveries_are_the_beginning_of_the_stream(
    c: ChannelView,
    stream: Seq<Seq<u8>>,
    delivered: int,
    arrivals: Seq<int>,
)
    requires
        spec_faithful(c, stream, delivered),
        spec_in_flight(c, stream, delivered, arrivals),
    ensures
        ({
            let after = spec_after_arrivals(c, stream, arrivals);
            &&& delivered + after.handed.len() <= stream.len()
            &&& after.handed == stream.subrange(delivered, delivered + after.handed.len())
            &&& spec_faithful(after.channel, stream, delivered + after.handed.len())
        }),
    decreases arrivals.len(),
{
    if arrivals.len() == 0 {
        assert(spec_after_arrivals(c, stream, arrivals).handed =~= stream.subrange(
            delivered,
            delivered,
        ));
    } else {
        let earlier = arrivals.drop_last();
        lemma_deliveries_are_the_beginning_of_the_stream(c, stream, delivered, earlier);
        let before = spec_after_arrivals(c, stream, earlier);
        let so_far = delivered + before.handed.len();
        lemma_reliable_delivery_in_order(before.channel, stream, so_far, arrivals.last());
        let arrived = before.channel.with_reliable(
            spec_sequence_of(arrivals.last()),
            stream[arrivals.last() - 1],
        );
        let count = arrived.ready();
        let after = spec_after_arrivals(c, stream, arrivals);
        assert(arrived.ready_payloads().len() == count);
        assert(after.handed =~= stream.subrange(delivered, so_far + count));
    }
}

/// Of two messages of a stream the one that was sent first is delivered
/// first: in what a channel has handed up, an earlier place holds an
/// earlier message.
pub proof fn lemma_sent_first_is_delivered_first(
    c: ChannelView,
    stream: Seq<Seq<u8>>,
    arrivals: Seq<int>,
    a: int,
    b: int,
)
    requires
        spec_faithful(c, stream, 0),
        spec_in_flight(c, stream, 0, arrivals),
        0 <= a < b < spec_after_arrivals(c, stream, arrivals).handed.len(),
    ensures
        b < stream.len(),
        spec_after_arrivals(c, stream, arrivals).handed[a] == stream[a],
        spec_after_arrivals(c, stream, arrivals).handed[b] == stream[b],
{
    lemma_deliveries_are_the_beginning_of_the_stream(c, stream, 0, arrivals);
}

/// Whether message `number` of the stream has come and was kept: it is one
/// of the `delivered` first, or it waits among the pending ones, which lie
/// ahead of the sequence number `from`.
pub open spec fn spec_has_come(
    pending: Seq<IncomingView>,
    from: u16,
    delivered: int,
    number: int,
) -> bool {
    number <= delivered || exists|i: int|
        0 <= i < pending.len() && delivered + spec_ahead(
            from,
            (#[trigger] pending[i]).reliable_sequence_number,
        ) == number
}

/// A message that has come is delivered or waits, also after another copy
/// of a message arrived; and the message that arrived has come.
proof fn lemma_arrival_keeps_messages(
    c: ChannelView,
    stream: Seq<Seq<u8>>,
    delivered: int,
    number: int,
    k: int,
)
    requires
        spec_faithful(c, stream, delivered),
        1 <= number <= stream.len(),
        delivered - 0x8000 < number <= delivered + RELIABLE_WINDOW,
        k == number || spec_has_come(
            c.pending_reliable,
            c.incoming_reliable_sequence_number,
            delivered,
            k,
        ),
    ensures
        spec_has_come(
            c.with_reliable(spec_sequence_of(number), stream[number - 1]).pending_reliable,
            c.incoming_reliable_sequence_number,
            delivered,
            k,
        ),
{
    let from = c.incoming_reliable_sequence_number;
    let sequence = spec_sequence_of(number);
    let after = c.with_reliable(sequence, stream[number - 1]);
    let distance = spec_ahead(from, sequence);
    let slot = spec_slot(c.pending_reliable, from, distance);
    lemma_slot(c.pending_reliable, from, distance);
    if k > delivered {
        if c.has_room_for(sequence, 1) {
            assert(distance == number - delivered);
            if k == number {
                assert(after.pending_reliable[slot].reliable_sequence_number == sequence);
            } else {
                let i = choose|i: int|
                    0 <= i < c.pending_reliable.len() && delivered + spec_ahead(
                        from,
                        (#[trigger] c.pending_reliable[i]).reliable_sequence_number,
                    ) == k;
                if i < slot {
                    assert(after.pending_reliable[i] == c.pending_reliable[i]);
                } else {
                    assert(after.pending_reliable[i + 1] == c.pending_reliable[i]);
                }
            }
        } else if k == number && !spec_has_come(c.pending_reliable, from, delivered, k) {
            assert(distance == number - delivered);
            if slot > 0 {
                assert(spec_ahead(from, c.pending_reliable[slot - 1].reliable_sequence_number)
                    < distance);
                assert(c.pending_reliable[slot - 1].span() == 1);
            }
            assert(slot < c.pending_reliable.len());
            assert(spec_ahead(from, c.pending_reliable[slot].reliable_sequence_number)
                == distance);
        }
    }
}

/// A message that has come is delivered or waits, also after the channel
/// has delivered what it can; and then the message at the front of the
/// waiting ones is not the next of the stream.
proof fn lemma_run_keeps_messages(
    pending: Seq<IncomingView>,
    from: u16,
    stream: Seq<Seq<u8>>,
    delivered: int,
    k: int,
)
    requires
        spec_holds_stream(pending, from, stream, delivered),
        spec_has_come(pending, from, delivered, k),
    ensures
        ({
            let count = spec_ready(pending, from);
            let left = pending.skip(count);
            let last = spec_after_run(pending, from, count);
            &&& spec_has_come(left, last, delivered + count, k)
            &&& left.len() > 0 ==> spec_ahead(last, left[0].reliable_sequence_number) != 1
        }),
    decreases pending.len(),
{
    let count = spec_ready(pending, from);
    if pending.len() > 0 && spec_ahead(from, pending[0].reliable_sequence_number) == 1
        && pending[0].assembly.complete() {
        let head = pending[0];
        let rest = pending.drop_first();
        let next = spec_advance(from, head.span());
        lemma_order_after_delivery(pending, from);
        assert forall|i: int| 0 <= i < rest.len() implies {
            let e = #[trigger] rest[i];
            let at = delivered + 1 + spec_ahead(next, e.reliable_sequence_number);
            &&& at <= stream.len()
            &&& e.span() == 1
            &&& e.assembly.complete()
            &&& e.assembly.buffer == stream[at - 1]
            &&& at == delivered + spec_ahead(from, e.reliable_sequence_number)
        } by {
            assert(rest[i] == pending[i + 1]);
            assert(spec_ahead(from, pending[0].reliable_sequence_number) + pending[0].span()
                <= spec_ahead(from, pending[i + 1].reliable_sequence_number));
            lemma_ahead_after_advance(from, 1, pending[i + 1].reliable_sequence_number);
        }
        assert(spec_has_come(rest, next, delivered + 1, k)) by {
            if k > delivered + 1 {
                let i = choose|i: int|
                    0 <= i < pending.len() && delivered + spec_ahead(
                        from,
                        (#[trigger] pending[i]).reliable_sequence_number,
                    ) == k;
                assert(i > 0);
                assert(rest[i - 1] == pending[i]);
                assert(delivered + 1 + spec_ahead(next, rest[i - 1].reliable_sequence_number)
                    == k);
            }
        }
        lemma_run_keeps_messages(rest, next, stream, delivered + 1, k);
        lemma_ready_counts(rest, next);
        let more = spec_ready(rest, next);
        assert(count == 1 + more);
        assert(pending.skip(count) =~= rest.skip(more));
        assert(spec_after_run(pending, from, count) == spec_after_run(rest, next, more));
    } else {
        assert(count == 0);
        assert(pending.skip(0) =~= pending);
    }
}

/// Every message of which a copy has arrived is delivered or waits; and
/// after an arrival the message at the front of the waiting ones is not the
/// next of the stream.
proof fn lemma_arrivals_are_kept(
    c: ChannelView,
    stream: Seq<Seq<u8>>,
    delivered: int,
    arrivals: Seq<int>,
)
    requires
        spec_faithful(c, stream, delivered),
        spec_in_flight(c, stream, delivered, arrivals),
    ensures
        ({
            let after = spec_after_arrivals(c, stream, arrivals);
            let left = after.channel.pending_reliable;
            let last = after.channel.incoming_reliable_sequence_number;
            &&& forall|j: int|
                0 <= j < arrivals.len() ==> spec_has_come(
                    left,
                    last,
                    delivered + after.handed.len(),
                    #[trigger] arrivals[j],
                )
            &&& arrivals.len() > 0 && left.len() > 0 ==> spec_ahead(
                last,
                left[0].reliable_sequence_number,
            ) != 1
        }),
    decreases arrivals.len(),
{
    if arrivals.len() > 0 {
        let earlier = arrivals.drop_last();
        let number = arrivals.last();
        lemma_arrivals_are_kept(c, stream, delivered, earlier);
        lemma_deliveries_are_the_beginning_of_the_stream(c, stream, delivered, earlier);
        let before = spec_after_arrivals(c, stream, earlier);
        let so_far = delivered + before.handed.len();
        let from = before.channel.incoming_reliable_sequence_number;
        let arrived = before.channel.with_reliable(spec_sequence_of(number), stream[number - 1]);
        lemma_arrival_keeps_faith(before.channel, stream, so_far, number);
        lemma_run_keeps_faith(arrived.pending_reliable, from, stream, so_far);
        let count = arrived.ready();
        let after = spec_after_arrivals(c, stream, arrivals);
        assert(arrived.ready_payloads().len() == count);
        assert(after.handed.len() == before.handed.len() + count);
        let left = after.channel.pending_reliable;
        let last = after.channel.incoming_reliable_sequence_number;
        assert(left == arrived.pending_reliable.skip(count));
        assert(last == spec_after_run(arrived.pending_reliable, from, count));
        lemma_arrival_keeps_messages(before.channel, stream, so_far, number, number);
        lemma_run_keeps_messages(arrived.pending_reliable, from, stream, so_far, number);
        assert forall|j: int| 0 <= j < arrivals.len() implies spec_has_come(
            left,
            last,
            delivered + after.handed.len(),
            #[trigger] arrivals[j],
        ) by {
            if j < earlier.len() {
                assert(earlier[j] == arrivals[j]);
            }
            lemma_arrival_keeps_messages(before.channel, stream, so_far, number, arrivals[j]);
            lemma_run_keeps_messages(arrived.pending_reliable, from, stream, so_far, arrivals[j]);
        }
    }
}

/// What has arrived is delivered as soon as nothing before it is missing.
///
/// Let copies of the messages of a stream arrive at a faithful receiver in
/// any order, any of them once or many times. Once a copy of each of the
/// messages up to a given one has arrived, the channel has handed up all
/// of them: no message waits for anything but the messages before it. So
/// a sender that sends a message again until it is acknowledged gets it
/// delivered as soon as one copy of it, and of each message before it,
/// has come through.
pub proof fn lemma_arrived_messages_are_delivered(
    c: ChannelView,
    stream: Seq<Seq<u8>>,
    delivered: int,
    arrivals: Seq<int>,
    upto: int,
)
    requires
        spec_faithful(c, stream, delivered),
        spec_in_flight(c, stream, delivered, arrivals),
        delivered <= upto <= stream.len(),
        forall|k: int| delivered < k <= upto ==> arrivals.contains(k),
    ensures
        ({
            let after = spec_after_arrivals(c, stream, arrivals);
            &&& upto - delivered <= after.handed.len()
            &&& after.handed.take(upto - delivered) == stream.subrange(delivered, upto)
        }),
{
    let after = spec_after_arrivals(c, stream, arrivals);
    let total = delivered + after.handed.len();
    lemma_deliveries_are_the_beginning_of_the_stream(c, stream, delivered, arrivals);
    lemma_arrivals_are_kept(c, stream, delivered, arrivals);
    if total < upto {
        let k = total + 1;
        assert(arrivals.contains(k));
        let j = choose|j: int| 0 <= j < arrivals.len() && arrivals[j] == k;
        let left = after.channel.pending_reliable;
        let last = after.channel.incoming_reliable_sequence_number;
        assert(spec_has_come(left, last, total, arrivals[j]));
        let i = choose|i: int|
            0 <= i < left.len() && total + spec_ahead(
                last,
                (#[trigger] left[i]).reliable_sequence_number,
            ) == k;
        if i > 0 {
            assert(spec_ahead(last, left[0].reliable_sequence_number) + left[0].span()
                <= spec_ahead(last, left[i].reliable_sequence_number));
        }
        assert(false);
    }
    assert(after.handed.take(upto - delivered) =~= stream.subrange(delivered, upto));
}

} // verus!
