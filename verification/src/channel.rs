//! Per-channel sequence numbers and the ordering of incoming messages.
//!
//! Reliable messages are delivered in the order of their 16-bit sequence
//! numbers, without gaps: a message that arrives early waits until those
//! before it have come. A sequence number that does not lie ahead of the last
//! delivered one, by at most [`RELIABLE_WINDOW`], is a duplicate or out of
//! the window, and the command is dropped.
//!
//! Unreliable messages carry the reliable sequence number that was current
//! when they were sent and an unreliable sequence number of their own. They
//! are delivered once the reliable prefix has caught up with them, each at
//! most once and never behind a later one.

use vstd::prelude::*;
use crate::consts::PROTOCOL_MAXIMUM_PACKET_SIZE;
use crate::fragment::{Reassembly, ReassemblyView};

pub mod ordering;
pub mod reassembly;

verus! {

/// How many sequence numbers ahead of the last delivered one a message may
/// lie.
pub const RELIABLE_WINDOW: u16 = 0x7FFF;

/// A message that has come, in whole or in part, and waits on its channel.
#[derive(Debug, Clone, PartialEq, Eq)]
pub struct Incoming {
    reliable_sequence_number: u16,
    unreliable_sequence_number: u16,
    assembly: Reassembly,
}

/// The mathematical value of an [`Incoming`].
pub struct IncomingView {
    /// For a reliable message its own sequence number, that of its first
    /// fragment; for an unreliable one the reliable sequence number that
    /// was current when it was sent.
    pub reliable_sequence_number: u16,
    /// The unreliable sequence number; 0 for a reliable message.
    pub unreliable_sequence_number: u16,
    /// The message as far as it has come.
    pub assembly: ReassemblyView,
}

/// How far `to` lies ahead of `from` in the 16-bit circle.
pub open spec fn spec_ahead(from: u16, to: u16) -> int {
    if to >= from {
        to - from
    } else {
        to - from + 0x1_0000
    }
}

/// The sequence number that lies `by` ahead of `from` in the 16-bit circle.
pub open spec fn spec_advance(from: u16, by: int) -> u16 {
    ((from + by) % 0x1_0000) as u16
}

/// How far `to` lies ahead of `from` in the 16-bit circle.
pub fn ahead(from: u16, to: u16) -> (d: u16)
    ensures
        d == spec_ahead(from, to),
{
    to.wrapping_sub(from)
}

impl View for Incoming {
    type V = IncomingView;

    closed spec fn view(&self) -> IncomingView {
        IncomingView {
            reliable_sequence_number: self.reliable_sequence_number,
            unreliable_sequence_number: self.unreliable_sequence_number,
            assembly: self.assembly@,
        }
    }
}

impl IncomingView {
    /// Number of reliable sequence numbers the message takes up: one for
    /// each of its fragments.
    pub open spec fn span(self) -> int {
        self.assembly.fragment_count as int
    }
}

/// The views of a sequence of waiting messages.
pub open spec fn incoming_views(s: Seq<Incoming>) -> Seq<IncomingView> {
    s.map_values(|e: Incoming| e@)
}

/// The place among the waiting reliable messages, which stand in the order
/// of their distance from `from`, of a message that lies `distance` ahead:
/// the number of messages at the front that lie less far ahead.
pub open spec fn spec_slot(pending: Seq<IncomingView>, from: u16, distance: int) -> int
    decreases pending.len(),
{
    if pending.len() == 0 || spec_ahead(from, pending[0].reliable_sequence_number) >= distance {
        0
    } else {
        1 + spec_slot(pending.drop_first(), from, distance)
    }
}

/// Whether a message that lies `distance` ahead of `from` and takes up
/// `span` sequence numbers has room among the waiting ones: it lies in the
/// window and shares no sequence number with its neighbours.
pub open spec fn spec_has_room(
    pending: Seq<IncomingView>,
    from: u16,
    distance: int,
    span: int,
) -> bool {
    let slot = spec_slot(pending, from, distance);
    &&& 1 <= distance
    &&& 1 <= span
    &&& distance + span - 1 <= RELIABLE_WINDOW
    &&& (slot > 0 ==> spec_ahead(from, pending[slot - 1].reliable_sequence_number) + pending[slot
        - 1].span() <= distance)
    &&& (slot < pending.len() ==> distance + span <= spec_ahead(
        from,
        pending[slot].reliable_sequence_number,
    ))
}

/// Whether the waiting reliable messages stand in order, each in the window
/// ahead of `from`, no two sharing a sequence number.
pub open spec fn spec_in_order(pending: Seq<IncomingView>, from: u16) -> bool {
    &&& forall|i: int|
        0 <= i < pending.len() ==> {
            &&& 1 <= spec_ahead(from, (#[trigger] pending[i]).reliable_sequence_number)
            &&& 1 <= pending[i].span()
            &&& spec_ahead(from, pending[i].reliable_sequence_number) + pending[i].span() - 1
                <= RELIABLE_WINDOW
        }
    &&& forall|i: int, j: int|
        0 <= i < j < pending.len() ==> spec_ahead(
            from,
            (#[trigger] pending[i]).reliable_sequence_number,
        ) + pending[i].span() <= spec_ahead(from, (#[trigger] pending[j]).reliable_sequence_number)
}

/// Number of messages at the front of the waiting reliable ones that can be
/// delivered now: each complete and next in sequence behind the one before.
pub open spec fn spec_ready(pending: Seq<IncomingView>, from: u16) -> int
    decreases pending.len(),
{
    if pending.len() == 0 {
        0
    } else if spec_ahead(from, pending[0].reliable_sequence_number) == 1
        && pending[0].assembly.complete() {
        1 + spec_ready(pending.drop_first(), spec_advance(from, pending[0].span()))
    } else {
        0
    }
}

/// The sequence number that was delivered last once the first `count`
/// waiting messages have been delivered.
pub open spec fn spec_after_run(pending: Seq<IncomingView>, from: u16, count: int) -> u16
    decreases count,
{
    if count <= 0 || pending.len() == 0 {
        from
    } else {
        spec_after_run(pending.drop_first(), spec_advance(from, pending[0].span()), count - 1)
    }
}

/// The payloads of a sequence of messages.
pub open spec fn spec_payloads(messages: Seq<IncomingView>) -> Seq<Seq<u8>> {
    messages.map_values(|e: IncomingView| e.assembly.buffer)
}

/// The payloads of a sequence of byte vectors.
pub open spec fn byte_views(messages: Seq<Vec<u8>>) -> Seq<Seq<u8>> {
    messages.map_values(|m: Vec<u8>| m@)
}

/// The sequence numbers and waiting messages of one channel.
#[derive(Debug, Clone, PartialEq, Eq)]
pub struct Channel {
    outgoing_reliable_sequence_number: u16,
    outgoing_unreliable_sequence_number: u16,
    incoming_reliable_sequence_number: u16,
    incoming_unreliable_sequence_number: u16,
    pending_reliable: Vec<Incoming>,
    pending_unreliable: Vec<Incoming>,
}

/// The mathematical value of a [`Channel`].
pub struct ChannelView {
    /// Sequence number of the last reliable command sent.
    pub outgoing_reliable_sequence_number: u16,
    /// Sequence number of the last unreliable command sent.
    pub outgoing_unreliable_sequence_number: u16,
    /// Sequence number of the last reliable message delivered.
    pub incoming_reliable_sequence_number: u16,
    /// Sequence number of the last unreliable message delivered.
    pub incoming_unreliable_sequence_number: u16,
    /// Reliable messages that wait for those before them, or for their own
    /// fragments, in the order of their sequence numbers.
    pub pending_reliable: Seq<IncomingView>,
    /// Unreliable messages that wait for the reliable prefix, or for their
    /// own fragments, in the order of their arrival.
    pub pending_unreliable: Seq<IncomingView>,
}

/// What a channel hands up after a command has come: first the reliable
/// messages, then the unreliable ones, each list in the order of delivery.
#[derive(Debug, Clone, PartialEq, Eq)]
pub struct Deliveries {
    pub reliable: Vec<Vec<u8>>,
    pub unreliable: Vec<Vec<u8>>,
}

/// The view of a message that came in one piece.
pub open spec fn spec_whole(reliable: u16, unreliable: u16, data: Seq<u8>) -> IncomingView {
    IncomingView {
        reliable_sequence_number: reliable,
        unreliable_sequence_number: unreliable,
        assembly: ReassemblyView {
            total_length: data.len(),
            fragment_count: 1,
            received: seq![true],
            buffer: data,
        },
    }
}

impl View for Channel {
    type V = ChannelView;

    closed spec fn view(&self) -> ChannelView {
        ChannelView {
            outgoing_reliable_sequence_number: self.outgoing_reliable_sequence_number,
            outgoing_unreliable_sequence_number: self.outgoing_unreliable_sequence_number,
            incoming_reliable_sequence_number: self.incoming_reliable_sequence_number,
            incoming_unreliable_sequence_number: self.incoming_unreliable_sequence_number,
            pending_reliable: incoming_views(self.pending_reliable@),
            pending_unreliable: incoming_views(self.pending_unreliable@),
        }
    }
}

impl ChannelView {
    /// A channel on which nothing has been sent or received.
    pub open spec fn spec_new() -> ChannelView {
        ChannelView {
            outgoing_reliable_sequence_number: 0,
            outgoing_unreliable_sequence_number: 0,
            incoming_reliable_sequence_number: 0,
            incoming_unreliable_sequence_number: 0,
            pending_reliable: Seq::empty(),
            pending_unreliable: Seq::empty(),
        }
    }

    /// Whether a reliable message with the given sequence number, which
    /// takes up `span` numbers, is new and in the window.
    pub open spec fn has_room_for(self, sequence: u16, span: int) -> bool {
        spec_has_room(
            self.pending_reliable,
            self.incoming_reliable_sequence_number,
            spec_ahead(self.incoming_reliable_sequence_number, sequence),
            span,
        )
    }

    /// The place at which a reliable message with the given sequence number
    /// stands among the waiting ones.
    pub open spec fn slot_of(self, sequence: u16) -> int {
        spec_slot(
            self.pending_reliable,
            self.incoming_reliable_sequence_number,
            spec_ahead(self.incoming_reliable_sequence_number, sequence),
        )
    }

    /// The channel after a reliable message came in one piece and took its
    /// place among the waiting ones; the channel itself where the message
    /// is a duplicate or out of the window.
    pub open spec fn with_reliable(self, sequence: u16, data: Seq<u8>) -> ChannelView {
        if self.has_room_for(sequence, 1) {
            ChannelView {
                pending_reliable: self.pending_reliable.insert(
                    self.slot_of(sequence),
                    spec_whole(sequence, 0, data),
                ),
                ..self
            }
        } else {
            self
        }
    }

    /// Number of reliable messages that can be delivered now.
    pub open spec fn ready(self) -> int {
        spec_ready(self.pending_reliable, self.incoming_reliable_sequence_number)
    }

    /// The channel after the reliable messages that can be delivered have
    /// been: they no longer wait, and the last of them is the last
    /// delivered. Where there was one, a new run of unreliable sequence
    /// numbers begins.
    pub open spec fn after_reliable_run(self) -> ChannelView {
        let count = self.ready();
        ChannelView {
            incoming_reliable_sequence_number: spec_after_run(
                self.pending_reliable,
                self.incoming_reliable_sequence_number,
                count,
            ),
            incoming_unreliable_sequence_number: if count > 0 {
                0
            } else {
                self.incoming_unreliable_sequence_number
            },
            pending_reliable: self.pending_reliable.skip(count),
            ..self
        }
    }

    /// The payloads of the reliable messages that can be delivered now, in
    /// the order of their sequence numbers.
    pub open spec fn ready_payloads(self) -> Seq<Seq<u8>> {
        spec_payloads(self.pending_reliable.take(self.ready()))
    }
}

/// Taking the views of messages goes along with inserting one.
proof fn lemma_views_insert(s: Seq<Incoming>, i: int, e: Incoming)
    requires
        0 <= i <= s.len(),
    ensures
        incoming_views(s.insert(i, e)) == incoming_views(s).insert(i, e@),
{
    assert(incoming_views(s.insert(i, e)) =~= incoming_views(s).insert(i, e@));
}

/// Taking the views of messages goes along with removing one.
proof fn lemma_views_remove(s: Seq<Incoming>, i: int)
    requires
        0 <= i < s.len(),
    ensures
        incoming_views(s.remove(i)) == incoming_views(s).remove(i),
{
    assert(incoming_views(s.remove(i)) =~= incoming_views(s).remove(i));
}

/// Taking the views of messages goes along with replacing one.
proof fn lemma_views_update(s: Seq<Incoming>, i: int, e: Incoming)
    requires
        0 <= i < s.len(),
    ensures
        incoming_views(s.update(i, e)) == incoming_views(s).update(i, e@),
{
    assert(incoming_views(s.update(i, e)) =~= incoming_views(s).update(i, e@));
}

/// Taking the views of messages goes along with appending one.
proof fn lemma_views_push(s: Seq<Incoming>, e: Incoming)
    ensures
        incoming_views(s.push(e)) == incoming_views(s).push(e@),
{
    assert(incoming_views(s.push(e)) =~= incoming_views(s).push(e@));
}

/// The slot of a distance lies behind every message that is less far ahead
/// and before every one that is at least as far ahead.
proof fn lemma_slot(pending: Seq<IncomingView>, from: u16, distance: int)
    requires
        spec_in_order(pending, from),
    ensures
        0 <= spec_slot(pending, from, distance) <= pending.len(),
        forall|i: int|
            0 <= i < spec_slot(pending, from, distance) ==> spec_ahead(
                from,
                (#[trigger] pending[i]).reliable_sequence_number,
            ) < distance,
        forall|i: int|
            spec_slot(pending, from, distance) <= i < pending.len() ==> spec_ahead(
                from,
                (#[trigger] pending[i]).reliable_sequence_number,
            ) >= distance,
    decreases pending.len(),
{
    if pending.len() == 0 || spec_ahead(from, pending[0].reliable_sequence_number) >= distance {
        assert forall|i: int| 0 <= i < pending.len() implies spec_ahead(
            from,
            (#[trigger] pending[i]).reliable_sequence_number,
        ) >= distance by {
            if i > 0 {
                assert(spec_ahead(from, pending[0].reliable_sequence_number) + pending[0].span()
                    <= spec_ahead(from, pending[i].reliable_sequence_number));
            }
        }
    } else {
        let rest = pending.drop_first();
        assert(spec_in_order(rest, from)) by {
            assert forall|i: int| 0 <= i < rest.len() implies {
                &&& 1 <= spec_ahead(from, (#[trigger] rest[i]).reliable_sequence_number)
                &&& 1 <= rest[i].span()
                &&& spec_ahead(from, rest[i].reliable_sequence_number) + rest[i].span() - 1
                    <= RELIABLE_WINDOW
            } by {
                assert(rest[i] == pending[i + 1]);
            }
            assert forall|i: int, j: int| 0 <= i < j < rest.len() implies spec_ahead(
                from,
                (#[trigger] rest[i]).reliable_sequence_number,
            ) + rest[i].span() <= spec_ahead(
                from,
                (#[trigger] rest[j]).reliable_sequence_number,
            ) by {
                assert(rest[i] == pending[i + 1]);
                assert(rest[j] == pending[j + 1]);
            }
        }
        lemma_slot(rest, from, distance);
        let slot = spec_slot(pending, from, distance);
        assert forall|i: int| 0 <= i < slot implies spec_ahead(
            from,
            (#[trigger] pending[i]).reliable_sequence_number,
        ) < distance by {
            if i > 0 {
                assert(rest[i - 1] == pending[i]);
            }
        }
        assert forall|i: int| slot <= i < pending.len() implies spec_ahead(
            from,
            (#[trigger] pending[i]).reliable_sequence_number,
        ) >= distance by {
            assert(rest[i - 1] == pending[i]);
        }
    }
}

/// A message that has room keeps the waiting ones in order when it takes its
/// slot.
proof fn lemma_insert_keeps_order(pending: Seq<IncomingView>, from: u16, e: IncomingView)
    requires
        spec_in_order(pending, from),
        spec_has_room(pending, from, spec_ahead(from, e.reliable_sequence_number), e.span()),
    ensures
        spec_in_order(
            pending.insert(
                spec_slot(pending, from, spec_ahead(from, e.reliable_sequence_number)),
                e,
            ),
            from,
        ),
{
    let distance = spec_ahead(from, e.reliable_sequence_number);
    let slot = spec_slot(pending, from, distance);
    lemma_slot(pending, from, distance);
    let next = pending.insert(slot, e);
    assert forall|i: int| 0 <= i < next.len() implies {
        &&& 1 <= spec_ahead(from, (#[trigger] next[i]).reliable_sequence_number)
        &&& 1 <= next[i].span()
        &&& spec_ahead(from, next[i].reliable_sequence_number) + next[i].span() - 1
            <= RELIABLE_WINDOW
    } by {
        if i < slot {
            assert(next[i] == pending[i]);
        } else if i > slot {
            assert(next[i] == pending[i - 1]);
        }
    }
    assert forall|i: int, j: int| 0 <= i < j < next.len() implies spec_ahead(
        from,
        (#[trigger] next[i]).reliable_sequence_number,
    ) + next[i].span() <= spec_ahead(from, (#[trigger] next[j]).reliable_sequence_number) by {
        let a = if i < slot {
            pending[i]
        } else if i == slot {
            e
        } else {
            pending[i - 1]
        };
        let b = if j < slot {
            pending[j]
        } else if j == slot {
            e
        } else {
            pending[j - 1]
        };
        assert(next[i] == a && next[j] == b);
        if i < slot && j == slot {
            if i < slot - 1 {
                assert(spec_ahead(from, pending[i].reliable_sequence_number) + pending[i].span()
                    <= spec_ahead(from, pending[slot - 1].reliable_sequence_number));
            }
        } else if i == slot && j > slot {
            if j - 1 > slot {
                assert(spec_ahead(from, pending[slot].reliable_sequence_number) + pending[slot].span()
                    <= spec_ahead(from, pending[j - 1].reliable_sequence_number));
            }
        }
    }
}

/// Moving the point of reference forward by no more than a number lies
/// ahead brings the number that much closer.
proof fn lemma_ahead_after_advance(from: u16, by: int, to: u16)
    requires
        0 <= by <= spec_ahead(from, to),
    ensures
        spec_ahead(spec_advance(from, by), to) == spec_ahead(from, to) - by,
{
}

/// Delivering one message more moves the last delivered number on by that
/// message's span.
proof fn lemma_after_run_step(pending: Seq<IncomingView>, from: u16, count: int)
    requires
        0 <= count < pending.len(),
    ensures
        spec_after_run(pending, from, count + 1) == spec_advance(
            spec_after_run(pending, from, count),
            pending[count].span(),
        ),
    decreases count,
{
    if count > 0 {
        let rest = pending.drop_first();
        lemma_after_run_step(rest, spec_advance(from, pending[0].span()), count - 1);
        assert(rest[count - 1] == pending[count]);
    } else {
        assert(spec_after_run(pending.drop_first(), spec_advance(from, pending[0].span()), 0)
            == spec_advance(from, pending[0].span()));
    }
}

/// Once the message at the front has been delivered, the others stand in
/// order ahead of it.
proof fn lemma_order_after_delivery(pending: Seq<IncomingView>, from: u16)
    requires
        spec_in_order(pending, from),
        pending.len() > 0,
        spec_ahead(from, pending[0].reliable_sequence_number) == 1,
    ensures
        spec_in_order(pending.drop_first(), spec_advance(from, pending[0].span())),
{
    let rest = pending.drop_first();
    let span = pending[0].span();
    let next = spec_advance(from, span);
    assert forall|i: int| 0 <= i < rest.len() implies spec_ahead(
        next,
        (#[trigger] rest[i]).reliable_sequence_number,
    ) == spec_ahead(from, pending[i + 1].reliable_sequence_number) - span && rest[i] == pending[i
        + 1] by {
        assert(rest[i] == pending[i + 1]);
        assert(spec_ahead(from, pending[0].reliable_sequence_number) + pending[0].span()
            <= spec_ahead(from, pending[i + 1].reliable_sequence_number));
        lemma_ahead_after_advance(from, span, pending[i + 1].reliable_sequence_number);
    }
    assert forall|i: int, j: int| 0 <= i < j < rest.len() implies spec_ahead(
        next,
        (#[trigger] rest[i]).reliable_sequence_number,
    ) + rest[i].span() <= spec_ahead(next, (#[trigger] rest[j]).reliable_sequence_number) by {
        assert(spec_ahead(from, pending[i + 1].reliable_sequence_number) + pending[i + 1].span()
            <= spec_ahead(from, pending[j + 1].reliable_sequence_number));
    }
}

impl Incoming {
    /// The invariant of a waiting message: that of its reassembly.
    pub closed spec fn wf(&self) -> bool {
        self.assembly.wf()
    }
}

impl Channel {
    /// The invariant of a channel: every waiting message is well formed, and
    /// the reliable ones stand in order in the window.
    pub closed spec fn wf(&self) -> bool {
        &&& forall|i: int|
            0 <= i < self.pending_reliable@.len() ==> (#[trigger] self.pending_reliable@[i]).wf()
        &&& forall|i: int|
            0 <= i < self.pending_unreliable@.len() ==> (
            #[trigger] self.pending_unreliable@[i]).wf()
        &&& spec_in_order(
            incoming_views(self.pending_reliable@),
            self.incoming_reliable_sequence_number,
        )
    }

    /// What the invariant says of the view: the waiting reliable messages
    /// stand in order in the window.
    pub proof fn lemma_wf(&self)
        requires
            self.wf(),
        ensures
            spec_in_order(self@.pending_reliable, self@.incoming_reliable_sequence_number),
    {
    }

    /// A channel on which nothing has been sent or received.
    pub fn new() -> (c: Channel)
        ensures
            c.wf(),
            c@ == ChannelView::spec_new(),
    {
        let c = Channel {
            outgoing_reliable_sequence_number: 0,
            outgoing_unreliable_sequence_number: 0,
            incoming_reliable_sequence_number: 0,
            incoming_unreliable_sequence_number: 0,
            pending_reliable: Vec::new(),
            pending_unreliable: Vec::new(),
        };
        assert(c@.pending_reliable =~= Seq::empty());
        assert(c@.pending_unreliable =~= Seq::empty());
        c
    }

    /// The place at which a reliable message that lies `distance` ahead of
    /// the last delivered one stands among the waiting ones.
    fn slot(&self, distance: u16) -> (slot: usize)
        requires
            self.wf(),
        ensures
            slot == spec_slot(
                self@.pending_reliable,
                self@.incoming_reliable_sequence_number,
                distance as int,
            ),
            slot <= self@.pending_reliable.len(),
    {
        let ghost pending = self@.pending_reliable;
        let from = self.incoming_reliable_sequence_number;
        let mut i: usize = 0;
        assert(pending.skip(0) =~= pending);
        while i < self.pending_reliable.len() && ahead(
            from,
            self.pending_reliable[i].reliable_sequence_number,
        ) < distance
            invariant
                i <= self.pending_reliable@.len(),
                pending == incoming_views(self.pending_reliable@),
                from == self.incoming_reliable_sequence_number,
                spec_slot(pending, from, distance as int) == i + spec_slot(
                    pending.skip(i as int),
                    from,
                    distance as int,
                ),
            decreases self.pending_reliable@.len() - i,
        {
            assert(pending.skip(i as int)[0] == pending[i as int]);
            assert(pending.skip(i as int).drop_first() =~= pending.skip(i + 1));
            i = i + 1;
        }
        proof {
            if i < pending.len() {
                assert(pending.skip(i as int)[0] == pending[i as int]);
            }
        }
        i
    }

    /// Delivers the reliable messages that are complete and next in
    /// sequence, in the order of their sequence numbers.
    #[verifier::rlimit(50)]
    fn deliver_reliable(&mut self) -> (out: Vec<Vec<u8>>)
        requires
            old(self).wf(),
        ensures
            final(self).wf(),
            final(self)@ == old(self)@.after_reliable_run(),
            byte_views(out@) == old(self)@.ready_payloads(),
    {
        let ghost start = self@;
        let ghost first = start.incoming_reliable_sequence_number;
        let mut out: Vec<Vec<u8>> = Vec::new();
        let mut more = true;
        assert(start.pending_reliable.skip(0) =~= start.pending_reliable);
        assert(byte_views(out@) =~= spec_payloads(start.pending_reliable.take(0)));
        while more
            invariant
                self.wf(),
                out@.len() <= start.pending_reliable.len(),
                self@.pending_reliable == start.pending_reliable.skip(out@.len() as int),
                self@.pending_unreliable == start.pending_unreliable,
                self@.outgoing_reliable_sequence_number == start.outgoing_reliable_sequence_number,
                self@.outgoing_unreliable_sequence_number
                    == start.outgoing_unreliable_sequence_number,
                self@.incoming_reliable_sequence_number == spec_after_run(
                    start.pending_reliable,
                    first,
                    out@.len() as int,
                ),
                self@.incoming_unreliable_sequence_number == if out@.len() > 0 {
                    0
                } else {
                    start.incoming_unreliable_sequence_number
                },
                spec_ready(start.pending_reliable, first) == out@.len() + spec_ready(
                    self@.pending_reliable,
                    self@.incoming_reliable_sequence_number,
                ),
                !more ==> spec_ready(
                    self@.pending_reliable,
                    self@.incoming_reliable_sequence_number,
                ) == 0,
                byte_views(out@) == spec_payloads(start.pending_reliable.take(out@.len() as int)),
                first == start.incoming_reliable_sequence_number,
            decreases self.pending_reliable@.len() + if more { 1int } else { 0 },
        {
            if self.pending_reliable.len() == 0 {
                more = false;
            } else {
                let distance = ahead(
                    self.incoming_reliable_sequence_number,
                    self.pending_reliable[0].reliable_sequence_number,
                );
                assert(self.pending_reliable@[0].wf());
                if distance == 1 && self.pending_reliable[0].assembly.is_complete() {
                    let ghost before = self@;
                    let ghost count = out@.len() as int;
                    let ghost entries = self.pending_reliable@;
                    proof {
                        self.pending_reliable@[0].assembly.lemma_wf();
                        lemma_views_remove(entries, 0);
                        lemma_after_run_step(start.pending_reliable, first, count);
                        lemma_order_after_delivery(
                            before.pending_reliable,
                            before.incoming_reliable_sequence_number,
                        );
                        assert(before.pending_reliable[0] == start.pending_reliable[count]);
                        assert(before.pending_reliable.drop_first() =~= start.pending_reliable.skip(
                            count + 1,
                        ));
                        assert(before.pending_reliable.remove(0) =~= before.pending_reliable.drop_first());
                    }
                    let entry = self.pending_reliable.remove(0);
                    let span = entry.assembly.fragment_count();
                    assert(1 <= span <= RELIABLE_WINDOW);
                    self.incoming_reliable_sequence_number =
                        self.incoming_reliable_sequence_number.wrapping_add(span as u16);
                    self.incoming_unreliable_sequence_number = 0;
                    let ghost handed = out@;
                    out.push(entry.assembly.into_data());
                    proof {
                        assert(spec_advance(
                            before.incoming_reliable_sequence_number,
                            span as int,
                        ) == self.incoming_reliable_sequence_number);
                        assert forall|i: int| 0 <= i < self.pending_reliable@.len() implies (
                        #[trigger] self.pending_reliable@[i]).wf() by {
                            assert(self.pending_reliable@[i] == entries[i + 1]);
                        }
                        assert(byte_views(out@) =~= spec_payloads(
                            start.pending_reliable.take(count + 1),
                        )) by {
                            assert(byte_views(out@) =~= byte_views(handed).push(
                                entry@.assembly.buffer,
                            ));
                            assert(start.pending_reliable.take(count + 1)
                                =~= start.pending_reliable.take(count).push(
                                start.pending_reliable[count],
                            ));
                            assert(spec_payloads(start.pending_reliable.take(count + 1))
                                =~= spec_payloads(start.pending_reliable.take(count)).push(
                                start.pending_reliable[count].assembly.buffer,
                            ));
                        }
                    }
                } else {
                    more = false;
                }
            }
        }
        out
    }
}

/// What a pass over the waiting unreliable messages yields.
pub struct Sweep {
    /// The payloads delivered, in the order of delivery.
    pub delivered: Seq<Seq<u8>>,
    /// The messages that go on waiting.
    pub kept: Seq<IncomingView>,
    /// The unreliable sequence number delivered last.
    pub last: u16,
}

/// Whether the unreliable sequence number `sequence` lies ahead of the one
/// delivered last.
pub open spec fn spec_is_fresh(last: u16, sequence: u16) -> bool {
    1 <= spec_ahead(last, sequence) <= RELIABLE_WINDOW
}

/// A pass over the waiting unreliable messages, front to back, where
/// `epoch` is the reliable sequence number delivered last and `last` the
/// unreliable one. A message of the current epoch is delivered if it is
/// complete and ahead of `last`, waits if it is incomplete and ahead, and is
/// dropped otherwise; one of a later epoch waits; one of an earlier epoch is
/// dropped.
pub open spec fn spec_sweep(pending: Seq<IncomingView>, epoch: u16, last: u16) -> Sweep
    decreases pending.len(),
{
    if pending.len() == 0 {
        Sweep { delivered: Seq::empty(), kept: Seq::empty(), last }
    } else {
        let e = pending[0];
        let distance = spec_ahead(epoch, e.reliable_sequence_number);
        if distance == 0 && spec_is_fresh(last, e.unreliable_sequence_number)
            && e.assembly.complete() {
            let rest = spec_sweep(pending.drop_first(), epoch, e.unreliable_sequence_number);
            Sweep { delivered: seq![e.assembly.buffer] + rest.delivered, ..rest }
        } else if (distance == 0 && spec_is_fresh(last, e.unreliable_sequence_number)) || 1
            <= distance <= RELIABLE_WINDOW {
            let rest = spec_sweep(pending.drop_first(), epoch, last);
            Sweep { kept: seq![e] + rest.kept, ..rest }
        } else {
            spec_sweep(pending.drop_first(), epoch, last)
        }
    }
}

/// The place of the first waiting message with the given pair of sequence
/// numbers; the number of waiting messages where there is none.
pub open spec fn spec_find(pending: Seq<IncomingView>, reliable: u16, unreliable: u16) -> int
    decreases pending.len(),
{
    if pending.len() == 0 {
        0
    } else if pending[0].reliable_sequence_number == reliable
        && pending[0].unreliable_sequence_number == unreliable {
        0
    } else {
        1 + spec_find(pending.drop_first(), reliable, unreliable)
    }
}

/// The reassembly of a message of which one fragment has come.
pub open spec fn spec_started(
    total_length: u32,
    fragment_count: u32,
    number: u32,
    offset: u32,
    data: Seq<u8>,
) -> ReassemblyView {
    crate::fragment::spec_fresh(total_length as nat, fragment_count as nat).with_piece(
        number,
        offset,
        data,
    )
}

/// Whether a message of the given size in the given number of fragments is
/// one a reassembly can be made for.
pub open spec fn spec_sizes_legal(total_length: u32, fragment_count: u32) -> bool {
    &&& 0 < fragment_count <= crate::consts::PROTOCOL_MAXIMUM_FRAGMENT_COUNT
    &&& fragment_count <= total_length <= PROTOCOL_MAXIMUM_PACKET_SIZE
}

impl ChannelView {
    /// The channel after a fragment of a reliable message came: it joins
    /// the message it belongs to if that one waits and is of the same size
    /// and fragment count; it starts a new message if the sizes are legal
    /// and the message has room in the window; otherwise nothing changes.
    pub open spec fn with_fragment(
        self,
        start: u16,
        fragment_count: u32,
        number: u32,
        total_length: u32,
        offset: u32,
        data: Seq<u8>,
    ) -> ChannelView {
        let slot = self.slot_of(start);
        if slot < self.pending_reliable.len() && self.pending_reliable[slot].reliable_sequence_number
            == start {
            let e = self.pending_reliable[slot];
            if e.assembly.total_length == total_length && e.assembly.fragment_count
                == fragment_count {
                ChannelView {
                    pending_reliable: self.pending_reliable.update(
                        slot,
                        IncomingView {
                            assembly: e.assembly.with_piece(number, offset, data),
                            ..e
                        },
                    ),
                    ..self
                }
            } else {
                self
            }
        } else if spec_sizes_legal(total_length, fragment_count) && self.has_room_for(
            start,
            fragment_count as int,
        ) {
            ChannelView {
                pending_reliable: self.pending_reliable.insert(
                    slot,
                    IncomingView {
                        reliable_sequence_number: start,
                        unreliable_sequence_number: 0,
                        assembly: spec_started(total_length, fragment_count, number, offset, data),
                    },
                ),
                ..self
            }
        } else {
            self
        }
    }

    /// Whether an unreliable message with the given pair of sequence
    /// numbers can still be delivered: its epoch is the current one or a
    /// later one in the window, and in the current epoch it lies ahead of
    /// the unreliable message delivered last.
    pub open spec fn admits_unreliable(self, reliable: u16, unreliable: u16) -> bool {
        let distance = spec_ahead(self.incoming_reliable_sequence_number, reliable);
        &&& distance <= RELIABLE_WINDOW
        &&& (distance == 0 ==> spec_is_fresh(self.incoming_unreliable_sequence_number, unreliable))
    }

    /// The channel after an unreliable message came in one piece and joined
    /// the waiting ones; the channel itself where the message can no longer
    /// be delivered.
    pub open spec fn with_unreliable(self, reliable: u16, unreliable: u16, data: Seq<u8>) -> ChannelView {
        if self.admits_unreliable(reliable, unreliable) {
            ChannelView {
                pending_unreliable: self.pending_unreliable.push(
                    spec_whole(reliable, unreliable, data),
                ),
                ..self
            }
        } else {
            self
        }
    }

    /// The channel after a fragment of an unreliable message came: it joins
    /// the message it belongs to if that one waits and is of the same size
    /// and fragment count; it starts a new message if the sizes are legal;
    /// nothing changes where the message can no longer be delivered.
    pub open spec fn with_unreliable_fragment(
        self,
        reliable: u16,
        start: u16,
        fragment_count: u32,
        number: u32,
        total_length: u32,
        offset: u32,
        data: Seq<u8>,
    ) -> ChannelView {
        let at = spec_find(self.pending_unreliable, reliable, start);
        if !self.admits_unreliable(reliable, start) {
            self
        } else if at < self.pending_unreliable.len() {
            let e = self.pending_unreliable[at];
            if e.assembly.total_length == total_length && e.assembly.fragment_count
                == fragment_count {
                ChannelView {
                    pending_unreliable: self.pending_unreliable.update(
                        at,
                        IncomingView {
                            assembly: e.assembly.with_piece(number, offset, data),
                            ..e
                        },
                    ),
                    ..self
                }
            } else {
                self
            }
        } else if spec_sizes_legal(total_length, fragment_count) {
            ChannelView {
                pending_unreliable: self.pending_unreliable.push(
                    IncomingView {
                        reliable_sequence_number: reliable,
                        unreliable_sequence_number: start,
                        assembly: spec_started(total_length, fragment_count, number, offset, data),
                    },
                ),
                ..self
            }
        } else {
            self
        }
    }

    /// What a pass over the waiting unreliable messages yields now.
    pub open spec fn sweep(self) -> Sweep {
        spec_sweep(
            self.pending_unreliable,
            self.incoming_reliable_sequence_number,
            self.incoming_unreliable_sequence_number,
        )
    }

    /// The channel after a pass over the waiting unreliable messages.
    pub open spec fn after_sweep(self) -> ChannelView {
        ChannelView {
            pending_unreliable: self.sweep().kept,
            incoming_unreliable_sequence_number: self.sweep().last,
            ..self
        }
    }

    /// The channel after the deliveries that follow the arrival of a
    /// command: first the reliable run, then the pass over the unreliable
    /// messages.
    pub open spec fn after_deliveries(self) -> ChannelView {
        self.after_reliable_run().after_sweep()
    }

    /// The payloads of the unreliable messages that the deliveries after
    /// the arrival of a command hand up.
    pub open spec fn swept_payloads(self) -> Seq<Seq<u8>> {
        self.after_reliable_run().sweep().delivered
    }

    /// The channel after `count` reliable commands were given the next
    /// sequence numbers: a new run of unreliable numbers begins.
    pub open spec fn after_reliable_sends(self, count: int) -> ChannelView {
        ChannelView {
            outgoing_reliable_sequence_number: spec_advance(
                self.outgoing_reliable_sequence_number,
                count,
            ),
            outgoing_unreliable_sequence_number: 0,
            ..self
        }
    }

    /// The channel after an unreliable command was given the next sequence
    /// number.
    pub open spec fn after_unreliable_send(self) -> ChannelView {
        ChannelView {
            outgoing_unreliable_sequence_number: spec_advance(
                self.outgoing_unreliable_sequence_number,
                1,
            ),
            ..self
        }
    }
}

/// Replacing a waiting reliable message by one with the same sequence
/// number and span keeps the order.
proof fn lemma_update_keeps_order(pending: Seq<IncomingView>, from: u16, i: int, e: IncomingView)
    requires
        spec_in_order(pending, from),
        0 <= i < pending.len(),
        e.reliable_sequence_number == pending[i].reliable_sequence_number,
        e.span() == pending[i].span(),
    ensures
        spec_in_order(pending.update(i, e), from),
{
    let next = pending.update(i, e);
    assert forall|k: int| 0 <= k < next.len() implies {
        &&& 1 <= spec_ahead(from, (#[trigger] next[k]).reliable_sequence_number)
        &&& 1 <= next[k].span()
        &&& spec_ahead(from, next[k].reliable_sequence_number) + next[k].span() - 1
            <= RELIABLE_WINDOW
    } by {
        assert(pending[k].span() == next[k].span());
    }
    assert forall|k: int, j: int| 0 <= k < j < next.len() implies spec_ahead(
        from,
        (#[trigger] next[k]).reliable_sequence_number,
    ) + next[k].span() <= spec_ahead(from, (#[trigger] next[j]).reliable_sequence_number) by {
        assert(spec_ahead(from, pending[k].reliable_sequence_number) + pending[k].span()
            <= spec_ahead(from, pending[j].reliable_sequence_number));
    }
}

impl Channel {
    /// Whether a message that lies `distance` ahead of the last delivered
    /// one and takes up `span` sequence numbers has room at `slot`.
    fn has_room(&self, slot: usize, distance: u16, span: u32) -> (r: bool)
        requires
            self.wf(),
            slot == spec_slot(
                self@.pending_reliable,
                self@.incoming_reliable_sequence_number,
                distance as int,
            ),
            slot <= self@.pending_reliable.len(),
        ensures
            r == spec_has_room(
                self@.pending_reliable,
                self@.incoming_reliable_sequence_number,
                distance as int,
                span as int,
            ),
    {
        if distance < 1 || span < 1 || span > RELIABLE_WINDOW as u32 || distance as u32 + span - 1
            > RELIABLE_WINDOW as u32 {
            return false;
        }
        let from = self.incoming_reliable_sequence_number;
        if slot > 0 {
            proof {
                self.pending_reliable@[slot - 1].assembly.lemma_wf();
            }
            let before = &self.pending_reliable[slot - 1];
            if ahead(from, before.reliable_sequence_number) as u32
                + before.assembly.fragment_count() > distance as u32 {
                return false;
            }
        }
        if slot < self.pending_reliable.len() {
            let behind = &self.pending_reliable[slot];
            if distance as u32 + span > ahead(from, behind.reliable_sequence_number) as u32 {
                return false;
            }
        }
        true
    }

    /// The place of the first waiting unreliable message with the given
    /// pair of sequence numbers.
    fn find(&self, reliable: u16, unreliable: u16) -> (at: usize)
        ensures
            at == spec_find(self@.pending_unreliable, reliable, unreliable),
            at <= self@.pending_unreliable.len(),
    {
        let ghost pending = self@.pending_unreliable;
        let mut i: usize = 0;
        assert(pending.skip(0) =~= pending);
        while i < self.pending_unreliable.len() && !(
        self.pending_unreliable[i].reliable_sequence_number == reliable
            && self.pending_unreliable[i].unreliable_sequence_number == unreliable)
            invariant
                i <= self.pending_unreliable@.len(),
                pending == incoming_views(self.pending_unreliable@),
                spec_find(pending, reliable, unreliable) == i + spec_find(
                    pending.skip(i as int),
                    reliable,
                    unreliable,
                ),
            decreases self.pending_unreliable@.len() - i,
        {
            assert(pending.skip(i as int)[0] == pending[i as int]);
            assert(pending.skip(i as int).drop_first() =~= pending.skip(i + 1));
            i = i + 1;
        }
        proof {
            if i < pending.len() {
                assert(pending.skip(i as int)[0] == pending[i as int]);
            }
        }
        i
    }

    /// Passes over the waiting unreliable messages and delivers those that
    /// can be.
    #[verifier::rlimit(50)]
    fn deliver_unreliable(&mut self) -> (out: Vec<Vec<u8>>)
        requires
            old(self).wf(),
        ensures
            final(self).wf(),
            final(self)@ == old(self)@.after_sweep(),
            byte_views(out@) == old(self)@.sweep().delivered,
    {
        let ghost start = self@;
        let epoch = self.incoming_reliable_sequence_number;
        let mut waiting: Vec<Incoming> = Vec::new();
        std::mem::swap(&mut waiting, &mut self.pending_unreliable);
        let mut out: Vec<Vec<u8>> = Vec::new();
        assert(incoming_views(self.pending_unreliable@) =~= Seq::<IncomingView>::empty());
        assert(byte_views(out@) =~= Seq::<Seq<u8>>::empty());
        assert(Seq::<Seq<u8>>::empty() + start.sweep().delivered =~= start.sweep().delivered);
        assert(Seq::<IncomingView>::empty() + start.sweep().kept =~= start.sweep().kept);
        while waiting.len() > 0
            invariant
                self.wf(),
                forall|i: int| 0 <= i < waiting@.len() ==> (#[trigger] waiting@[i]).wf(),
                epoch == start.incoming_reliable_sequence_number,
                self@.incoming_reliable_sequence_number == epoch,
                self@.pending_reliable == start.pending_reliable,
                self@.outgoing_reliable_sequence_number == start.outgoing_reliable_sequence_number,
                self@.outgoing_unreliable_sequence_number
                    == start.outgoing_unreliable_sequence_number,
                start.sweep().delivered == byte_views(out@) + spec_sweep(
                    incoming_views(waiting@),
                    epoch,
                    self@.incoming_unreliable_sequence_number,
                ).delivered,
                start.sweep().kept == self@.pending_unreliable + spec_sweep(
                    incoming_views(waiting@),
                    epoch,
                    self@.incoming_unreliable_sequence_number,
                ).kept,
                start.sweep().last == spec_sweep(
                    incoming_views(waiting@),
                    epoch,
                    self@.incoming_unreliable_sequence_number,
                ).last,
            decreases waiting@.len(),
        {
            let ghost entries = waiting@;
            let ghost views = incoming_views(waiting@);
            let ghost last = self.incoming_unreliable_sequence_number;
            let ghost kept = self@.pending_unreliable;
            let ghost handed = byte_views(out@);
            proof {
                lemma_views_remove(entries, 0);
                assert(views.remove(0) =~= views.drop_first());
                assert(entries[0].wf());
            }
            let entry = waiting.remove(0);
            assert forall|i: int| 0 <= i < waiting@.len() implies (#[trigger] waiting@[i]).wf() by {
                assert(waiting@[i] == entries[i + 1]);
            }
            assert(entry@ == views[0]);
            let distance = ahead(epoch, entry.reliable_sequence_number);
            let gap = ahead(
                self.incoming_unreliable_sequence_number,
                entry.unreliable_sequence_number,
            );
            let fresh = 1 <= gap && gap <= RELIABLE_WINDOW;
            if distance == 0 && fresh && entry.assembly.is_complete() {
                self.incoming_unreliable_sequence_number = entry.unreliable_sequence_number;
                out.push(entry.assembly.into_data());
                proof {
                    let rest = spec_sweep(views.drop_first(), epoch, views[0].unreliable_sequence_number);
                    assert(byte_views(out@) =~= handed.push(views[0].assembly.buffer));
                    assert(handed + (seq![views[0].assembly.buffer] + rest.delivered)
                        =~= byte_views(out@) + rest.delivered);
                }
            } else if (distance == 0 && fresh) || (1 <= distance && distance <= RELIABLE_WINDOW) {
                let ghost held = self.pending_unreliable@;
                self.pending_unreliable.push(entry);
                proof {
                    lemma_views_push(held, entry);
                    let rest = spec_sweep(views.drop_first(), epoch, last);
                    assert(kept + (seq![views[0]] + rest.kept) =~= kept.push(views[0]) + rest.kept);
                    assert forall|i: int| 0 <= i < self.pending_unreliable@.len() implies (
                    #[trigger] self.pending_unreliable@[i]).wf() by {
                        if i < held.len() {
                            assert(self.pending_unreliable@[i] == held[i]);
                        }
                    }
                }
            }
        }
        proof {
            assert(start.sweep().delivered =~= byte_views(out@));
            assert(start.sweep().kept =~= self@.pending_unreliable);
        }
        out
    }

    /// Delivers what can be delivered: first the reliable run, then the
    /// unreliable messages that the run has freed.
    fn deliver(&mut self) -> (out: Deliveries)
        requires
            old(self).wf(),
        ensures
            final(self).wf(),
            final(self)@ == old(self)@.after_deliveries(),
            byte_views(out.reliable@) == old(self)@.ready_payloads(),
            byte_views(out.unreliable@) == old(self)@.swept_payloads(),
    {
        let reliable = self.deliver_reliable();
        let unreliable = self.deliver_unreliable();
        Deliveries { reliable, unreliable }
    }
}

impl Channel {
    /// Takes in a reliable message that came in one piece under the given
    /// sequence number, and delivers what can now be delivered. A duplicate
    /// or a message outside the window changes nothing.
    pub fn receive_reliable(&mut self, sequence: u16, data: Vec<u8>) -> (out: Deliveries)
        requires
            old(self).wf(),
            data@.len() <= PROTOCOL_MAXIMUM_PACKET_SIZE,
        ensures
            final(self).wf(),
            final(self)@ == old(self)@.with_reliable(sequence, data@).after_deliveries(),
            byte_views(out.reliable@) == old(self)@.with_reliable(sequence, data@).ready_payloads(),
            byte_views(out.unreliable@) == old(self)@.with_reliable(
                sequence,
                data@,
            ).swept_payloads(),
    {
        let distance = ahead(self.incoming_reliable_sequence_number, sequence);
        let slot = self.slot(distance);
        if self.has_room(slot, distance, 1) {
            let ghost entries = self.pending_reliable@;
            let ghost before = self@;
            let entry = Incoming {
                reliable_sequence_number: sequence,
                unreliable_sequence_number: 0,
                assembly: Reassembly::whole(data),
            };
            assert(entry@ == spec_whole(sequence, 0, data@));
            proof {
                lemma_views_insert(entries, slot as int, entry);
                lemma_insert_keeps_order(
                    before.pending_reliable,
                    before.incoming_reliable_sequence_number,
                    entry@,
                );
            }
            self.pending_reliable.insert(slot, entry);
            assert forall|i: int| 0 <= i < self.pending_reliable@.len() implies (
            #[trigger] self.pending_reliable@[i]).wf() by {
                if i < slot {
                    assert(self.pending_reliable@[i] == entries[i]);
                } else if i > slot {
                    assert(self.pending_reliable@[i] == entries[i - 1]);
                }
            }
        }
        self.deliver()
    }

    /// Takes in one fragment of a reliable message and delivers what can
    /// now be delivered. `start` is the sequence number of the message's
    /// first fragment.
    #[verifier::rlimit(50)]
    pub fn receive_fragment(
        &mut self,
        start: u16,
        fragment_count: u32,
        number: u32,
        total_length: u32,
        offset: u32,
        data: &[u8],
    ) -> (out: Deliveries)
        requires
            old(self).wf(),
        ensures
            final(self).wf(),
            final(self)@ == old(self)@.with_fragment(
                start,
                fragment_count,
                number,
                total_length,
                offset,
                data@,
            ).after_deliveries(),
            byte_views(out.reliable@) == old(self)@.with_fragment(
                start,
                fragment_count,
                number,
                total_length,
                offset,
                data@,
            ).ready_payloads(),
            byte_views(out.unreliable@) == old(self)@.with_fragment(
                start,
                fragment_count,
                number,
                total_length,
                offset,
                data@,
            ).swept_payloads(),
    {
        let distance = ahead(self.incoming_reliable_sequence_number, start);
        let slot = self.slot(distance);
        let ghost entries = self.pending_reliable@;
        let ghost before = self@;
        if slot < self.pending_reliable.len() && self.pending_reliable[slot].reliable_sequence_number
            == start {
            assert(entries[slot as int].wf());
            if self.pending_reliable[slot].assembly.total_length() == total_length
                && self.pending_reliable[slot].assembly.fragment_count() == fragment_count {
                self.pending_reliable[slot].assembly.insert(number, offset, data);
                proof {
                    let entry = self.pending_reliable@[slot as int];
                    assert(self.pending_reliable@ =~= entries.update(slot as int, entry));
                    lemma_views_update(entries, slot as int, entry);
                    lemma_update_keeps_order(
                        before.pending_reliable,
                        before.incoming_reliable_sequence_number,
                        slot as int,
                        entry@,
                    );
                    assert forall|i: int| 0 <= i < self.pending_reliable@.len() implies (
                    #[trigger] self.pending_reliable@[i]).wf() by {
                        if i != slot {
                            assert(self.pending_reliable@[i] == entries[i]);
                        }
                    }
                }
            }
        } else if self.has_room(slot, distance, fragment_count) {
            match Reassembly::new(total_length, fragment_count) {
                Some(assembly) => {
                    let mut assembly = assembly;
                    assert(assembly@ =~= crate::fragment::spec_fresh(
                        total_length as nat,
                        fragment_count as nat,
                    ));
                    assembly.insert(number, offset, data);
                    let entry = Incoming {
                        reliable_sequence_number: start,
                        unreliable_sequence_number: 0,
                        assembly,
                    };
                    proof {
                        lemma_views_insert(entries, slot as int, entry);
                        lemma_insert_keeps_order(
                            before.pending_reliable,
                            before.incoming_reliable_sequence_number,
                            entry@,
                        );
                    }
                    self.pending_reliable.insert(slot, entry);
                    assert forall|i: int| 0 <= i < self.pending_reliable@.len() implies (
                    #[trigger] self.pending_reliable@[i]).wf() by {
                        if i < slot {
                            assert(self.pending_reliable@[i] == entries[i]);
                        } else if i > slot {
                            assert(self.pending_reliable@[i] == entries[i - 1]);
                        }
                    }
                },
                None => {},
            }
        }
        self.deliver()
    }

    /// Takes in an unreliable message that came in one piece and delivers
    /// what can now be delivered.
    pub fn receive_unreliable(&mut self, reliable: u16, unreliable: u16, data: Vec<u8>) -> (out:
        Deliveries)
        requires
            old(self).wf(),
            data@.len() <= PROTOCOL_MAXIMUM_PACKET_SIZE,
        ensures
            final(self).wf(),
            final(self)@ == old(self)@.with_unreliable(reliable, unreliable, data@).after_deliveries(),
            byte_views(out.reliable@) == old(self)@.with_unreliable(
                reliable,
                unreliable,
                data@,
            ).ready_payloads(),
            byte_views(out.unreliable@) == old(self)@.with_unreliable(
                reliable,
                unreliable,
                data@,
            ).swept_payloads(),
    {
        if self.admits(reliable, unreliable) {
            let ghost entries = self.pending_unreliable@;
            let entry = Incoming {
                reliable_sequence_number: reliable,
                unreliable_sequence_number: unreliable,
                assembly: Reassembly::whole(data),
            };
            assert(entry@ == spec_whole(reliable, unreliable, data@));
            proof {
                lemma_views_push(entries, entry);
            }
            self.pending_unreliable.push(entry);
            assert forall|i: int| 0 <= i < self.pending_unreliable@.len() implies (
            #[trigger] self.pending_unreliable@[i]).wf() by {
                if i < entries.len() {
                    assert(self.pending_unreliable@[i] == entries[i]);
                }
            }
        }
        self.deliver()
    }

    /// Takes in one fragment of an unreliable message and delivers what can
    /// now be delivered. `start` is the unreliable sequence number of the
    /// message.
    pub fn receive_unreliable_fragment(
        &mut self,
        reliable: u16,
        start: u16,
        fragment_count: u32,
        number: u32,
        total_length: u32,
        offset: u32,
        data: &[u8],
    ) -> (out: Deliveries)
        requires
            old(self).wf(),
        ensures
            final(self).wf(),
            final(self)@ == old(self)@.with_unreliable_fragment(
                reliable,
                start,
                fragment_count,
                number,
                total_length,
                offset,
                data@,
            ).after_deliveries(),
            byte_views(out.reliable@) == old(self)@.with_unreliable_fragment(
                reliable,
                start,
                fragment_count,
                number,
                total_length,
                offset,
                data@,
            ).ready_payloads(),
            byte_views(out.unreliable@) == old(self)@.with_unreliable_fragment(
                reliable,
                start,
                fragment_count,
                number,
                total_length,
                offset,
                data@,
            ).swept_payloads(),
    {
        let ghost entries = self.pending_unreliable@;
        if self.admits(reliable, start) {
            let at = self.find(reliable, start);
            if at < self.pending_unreliable.len() {
                assert(entries[at as int].wf());
                if self.pending_unreliable[at].assembly.total_length() == total_length
                    && self.pending_unreliable[at].assembly.fragment_count() == fragment_count {
                    self.pending_unreliable[at].assembly.insert(number, offset, data);
                    proof {
                        let entry = self.pending_unreliable@[at as int];
                        assert(self.pending_unreliable@ =~= entries.update(at as int, entry));
                        lemma_views_update(entries, at as int, entry);
                        assert forall|i: int| 0 <= i < self.pending_unreliable@.len() implies (
                        #[trigger] self.pending_unreliable@[i]).wf() by {
                            if i != at {
                                assert(self.pending_unreliable@[i] == entries[i]);
                            }
                        }
                    }
                }
            } else {
                match Reassembly::new(total_length, fragment_count) {
                    Some(assembly) => {
                        let mut assembly = assembly;
                        assert(assembly@ =~= crate::fragment::spec_fresh(
                            total_length as nat,
                            fragment_count as nat,
                        ));
                        assembly.insert(number, offset, data);
                        let entry = Incoming {
                            reliable_sequence_number: reliable,
                            unreliable_sequence_number: start,
                            assembly,
                        };
                        proof {
                            lemma_views_push(entries, entry);
                        }
                        self.pending_unreliable.push(entry);
                        assert forall|i: int| 0 <= i < self.pending_unreliable@.len() implies (
                        #[trigger] self.pending_unreliable@[i]).wf() by {
                            if i < entries.len() {
                                assert(self.pending_unreliable@[i] == entries[i]);
                            }
                        }
                    },
                    None => {},
                }
            }
        }
        self.deliver()
    }

    /// Whether an unreliable message with the given pair of sequence
    /// numbers can still be delivered.
    fn admits(&self, reliable: u16, unreliable: u16) -> (r: bool)
        ensures
            r == self@.admits_unreliable(reliable, unreliable),
    {
        let distance = ahead(self.incoming_reliable_sequence_number, reliable);
        if distance > RELIABLE_WINDOW {
            return false;
        }
        if distance == 0 {
            let gap = ahead(self.incoming_unreliable_sequence_number, unreliable);
            return 1 <= gap && gap <= RELIABLE_WINDOW;
        }
        true
    }

    /// Gives the next `count` reliable commands their sequence numbers and
    /// returns the first of them.
    pub fn next_reliable_run(&mut self, count: u16) -> (first: u16)
        requires
            old(self).wf(),
            count >= 1,
        ensures
            final(self).wf(),
            final(self)@ == old(self)@.after_reliable_sends(count as int),
            first == spec_advance(old(self)@.outgoing_reliable_sequence_number, 1),
    {
        let first = self.outgoing_reliable_sequence_number.wrapping_add(1);
        self.outgoing_reliable_sequence_number = self.outgoing_reliable_sequence_number.wrapping_add(
            count,
        );
        self.outgoing_unreliable_sequence_number = 0;
        first
    }

    /// Gives the next unreliable command its sequence number.
    pub fn next_unreliable(&mut self) -> (sequence: u16)
        requires
            old(self).wf(),
        ensures
            final(self).wf(),
            final(self)@ == old(self)@.after_unreliable_send(),
            sequence == final(self)@.outgoing_unreliable_sequence_number,
    {
        self.outgoing_unreliable_sequence_number =
            self.outgoing_unreliable_sequence_number.wrapping_add(1);
        self.outgoing_unreliable_sequence_number
    }

    /// Sequence number of the last reliable command sent.
    pub fn outgoing_reliable_sequence_number(&self) -> (n: u16)
        ensures
            n == self@.outgoing_reliable_sequence_number,
    {
        self.outgoing_reliable_sequence_number
    }

    /// Sequence number of the last unreliable command sent.
    pub fn outgoing_unreliable_sequence_number(&self) -> (n: u16)
        ensures
            n == self@.outgoing_unreliable_sequence_number,
    {
        self.outgoing_unreliable_sequence_number
    }

    /// Sequence number of the last reliable message delivered.
    pub fn incoming_reliable_sequence_number(&self) -> (n: u16)
        ensures
            n == self@.incoming_reliable_sequence_number,
    {
        self.incoming_reliable_sequence_number
    }

    /// Sequence number of the last unreliable message delivered.
    pub fn incoming_unreliable_sequence_number(&self) -> (n: u16)
        ensures
            n == self@.incoming_unreliable_sequence_number,
    {
        self.incoming_unreliable_sequence_number
    }

    /// Number of reliable messages that wait on the channel.
    pub fn waiting_reliable(&self) -> (n: usize)
        ensures
            n == self@.pending_reliable.len(),
    {
        self.pending_reliable.len()
    }

    /// Number of unreliable messages that wait on the channel.
    pub fn waiting_unreliable(&self) -> (n: usize)
        ensures
            n == self@.pending_unreliable.len(),
    {
        self.pending_unreliable.len()
    }
}

/// Reliable messages are delivered in sequence: each message of a run
/// carries the sequence number that follows the last one delivered before
/// it, and the run ends at the last sequence number it delivered.
pub proof fn lemma_reliable_run_in_sequence(pending: Seq<IncomingView>, from: u16, k: int)
    requires
        0 <= k < spec_ready(pending, from),
    ensures
        k < pending.len(),
        spec_ahead(spec_after_run(pending, from, k), pending[k].reliable_sequence_number) == 1,
        pending[k].assembly.complete(),
        spec_after_run(pending, from, k + 1) == spec_advance(
            spec_after_run(pending, from, k),
            pending[k].span(),
        ),
    decreases k,
{
    if k > 0 {
        let rest = pending.drop_first();
        let next = spec_advance(from, pending[0].span());
        lemma_reliable_run_in_sequence(rest, next, k - 1);
        assert(rest[k - 1] == pending[k]);
    } else {
        assert(spec_after_run(pending.drop_first(), spec_advance(from, pending[0].span()), 0)
            == spec_advance(from, pending[0].span()));
    }
}

/// A reliable message is never delivered twice: a sequence number that does
/// not lie ahead of the last delivered one within the window is taken for a
/// duplicate, and so is one that a waiting message holds.
pub proof fn lemma_duplicate_changes_nothing(c: ChannelView, sequence: u16, data: Seq<u8>)
    requires
        spec_in_order(c.pending_reliable, c.incoming_reliable_sequence_number),
        !(1 <= spec_ahead(c.incoming_reliable_sequence_number, sequence) <= RELIABLE_WINDOW)
            || exists|i: int|
            0 <= i < c.pending_reliable.len() && spec_ahead(
                c.incoming_reliable_sequence_number,
                (#[trigger] c.pending_reliable[i]).reliable_sequence_number,
            ) <= spec_ahead(c.incoming_reliable_sequence_number, sequence) < spec_ahead(
                c.incoming_reliable_sequence_number,
                c.pending_reliable[i].reliable_sequence_number,
            ) + c.pending_reliable[i].span(),
    ensures
        c.with_reliable(sequence, data) == c,
{
    let from = c.incoming_reliable_sequence_number;
    let distance = spec_ahead(from, sequence);
    if 1 <= distance <= RELIABLE_WINDOW {
        let i = choose|i: int|
            0 <= i < c.pending_reliable.len() && spec_ahead(
                from,
                (#[trigger] c.pending_reliable[i]).reliable_sequence_number,
            ) <= distance < spec_ahead(from, c.pending_reliable[i].reliable_sequence_number)
                + c.pending_reliable[i].span();
        lemma_slot(c.pending_reliable, from, distance);
        let slot = spec_slot(c.pending_reliable, from, distance);
        if i < slot {
            if i < slot - 1 {
                assert(spec_ahead(from, c.pending_reliable[i].reliable_sequence_number)
                    + c.pending_reliable[i].span() <= spec_ahead(
                    from,
                    c.pending_reliable[slot - 1].reliable_sequence_number,
                ));
            }
        } else if i > slot {
            assert(spec_ahead(from, c.pending_reliable[slot].reliable_sequence_number)
                + c.pending_reliable[slot].span() <= spec_ahead(
                from,
                c.pending_reliable[i].reliable_sequence_number,
            ));
        }
    }
}

/// The unreliable sequence numbers that a pass over the waiting unreliable
/// messages delivers, in the order of delivery.
pub open spec fn spec_swept_numbers(pending: Seq<IncomingView>, epoch: u16, last: u16) -> Seq<u16>
    decreases pending.len(),
{
    if pending.len() == 0 {
        Seq::empty()
    } else {
        let e = pending[0];
        let distance = spec_ahead(epoch, e.reliable_sequence_number);
        if distance == 0 && spec_is_fresh(last, e.unreliable_sequence_number)
            && e.assembly.complete() {
            seq![e.unreliable_sequence_number] + spec_swept_numbers(
                pending.drop_first(),
                epoch,
                e.unreliable_sequence_number,
            )
        } else {
            spec_swept_numbers(pending.drop_first(), epoch, last)
        }
    }
}

/// Unreliable messages are delivered at most once and never behind a later
/// one: each unreliable sequence number that a pass delivers lies ahead of
/// the one delivered before it, the first of them ahead of the one delivered
/// last before the pass, and the pass ends at the last number it delivered.
/// The numbers start again behind each reliable message, so this holds of
/// the unreliable messages between two reliable ones.
pub proof fn lemma_unreliable_in_sequence(pending: Seq<IncomingView>, epoch: u16, last: u16)
    ensures
        ({
            let numbers = spec_swept_numbers(pending, epoch, last);
            let swept = spec_sweep(pending, epoch, last);
            &&& numbers.len() == swept.delivered.len()
            &&& (numbers.len() > 0 ==> spec_is_fresh(last, numbers[0]))
            &&& forall|k: int|
                0 <= k < numbers.len() - 1 ==> spec_is_fresh(#[trigger] numbers[k], numbers[k + 1])
            &&& swept.last == if numbers.len() > 0 {
                numbers.last()
            } else {
                last
            }
        }),
    decreases pending.len(),
{
    if pending.len() > 0 {
        let e = pending[0];
        let distance = spec_ahead(epoch, e.reliable_sequence_number);
        if distance == 0 && spec_is_fresh(last, e.unreliable_sequence_number)
            && e.assembly.complete() {
            let here = e.unreliable_sequence_number;
            lemma_unreliable_in_sequence(pending.drop_first(), epoch, here);
            let rest = spec_swept_numbers(pending.drop_first(), epoch, here);
            let numbers = spec_swept_numbers(pending, epoch, last);
            assert(numbers =~= seq![here] + rest);
            assert forall|k: int| 0 <= k < numbers.len() - 1 implies spec_is_fresh(
                #[trigger] numbers[k],
                numbers[k + 1],
            ) by {
                if k > 0 {
                    assert(numbers[k] == rest[k - 1]);
                    assert(numbers[k + 1] == rest[k]);
                } else {
                    assert(numbers[1] == rest[0]);
                }
            }
            if rest.len() > 0 {
                assert(numbers.last() == rest.last());
            }
        } else {
            lemma_unreliable_in_sequence(pending.drop_first(), epoch, last);
        }
    }
}

} // verus!
