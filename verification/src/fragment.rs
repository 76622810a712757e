//! Fragmentation and reassembly of messages that do not fit one datagram.
//!
//! A message is cut into pieces of equal length, the last of which may be
//! shorter. The receiver writes each piece at its offset into a buffer of the
//! message's length and knows the message once every piece has come.

use vstd::prelude::*;
use crate::bytes::copy_range;
use crate::consts::{PROTOCOL_MAXIMUM_FRAGMENT_COUNT, PROTOCOL_MAXIMUM_PACKET_SIZE};

verus! {

/// Number of pieces of length `length` that a message of `total` bytes is
/// cut into.
pub open spec fn spec_fragment_count(total: int, length: int) -> int {
    if length <= 0 || total <= 0 {
        0
    } else {
        (total + length - 1) / length
    }
}

/// Where piece `i` of a message of `total` bytes ends when the pieces are
/// `length` bytes long.
pub open spec fn spec_piece_end(total: int, length: int, i: int) -> int {
    if (i + 1) * length <= total {
        (i + 1) * length
    } else {
        total
    }
}

/// Piece `i` of `payload` when the pieces are `length` bytes long.
pub open spec fn spec_piece(payload: Seq<u8>, length: int, i: int) -> Seq<u8> {
    payload.subrange(i * length, spec_piece_end(payload.len() as int, length, i))
}

/// Facts about the places of the pieces: piece `i` of a message starts
/// inside the message, is not empty and at most `length` bytes long.
pub proof fn lemma_piece_bounds(total: int, length: int, i: int)
    requires
        0 < length,
        0 < total,
        0 <= i < spec_fragment_count(total, length),
    ensures
        0 <= i * length < total,
        i * length < spec_piece_end(total, length, i) <= total,
        spec_piece_end(total, length, i) - i * length <= length,
        (i + 1) * length == i * length + length,
        i + 1 < spec_fragment_count(total, length) ==> spec_piece_end(total, length, i) == (i
            + 1) * length,
        i + 1 == spec_fragment_count(total, length) ==> spec_piece_end(total, length, i)
            == total,
{
    let count = (total + length - 1) / length;
    assert((i + 1) * length == i * length + length) by (nonlinear_arith);
    assert(0 <= i * length) by (nonlinear_arith)
        requires
            0 <= i,
            0 < length,
    ;
    assert(count * length <= total + length - 1 && total + length - 1 < (count + 1) * length)
        by (nonlinear_arith)
        requires
            count == (total + length - 1) / length,
            0 < length,
    ;
    assert((count + 1) * length == count * length + length) by (nonlinear_arith);
    assert((i + 1) * length <= count * length) by (nonlinear_arith)
        requires
            i + 1 <= count,
            0 < length,
    ;
    if i + 1 < count {
        assert((i + 2) * length <= count * length) by (nonlinear_arith)
            requires
                i + 2 <= count,
                0 < length,
        ;
        assert((i + 2) * length == (i + 1) * length + length) by (nonlinear_arith);
    }
}

/// Every byte of a message belongs to one of its pieces.
pub proof fn lemma_byte_in_piece(total: int, length: int, k: int)
    requires
        0 < length,
        0 <= k < total,
    ensures
        0 <= k / length < spec_fragment_count(total, length),
        (k / length) * length <= k < spec_piece_end(total, length, k / length),
{
    let i = k / length;
    let count = (total + length - 1) / length;
    assert(i * length <= k && k < (i + 1) * length && 0 <= i) by (nonlinear_arith)
        requires
            i == k / length,
            0 < length,
            0 <= k,
    ;
    assert(i < count) by (nonlinear_arith)
        requires
            i * length <= k,
            k < total,
            0 < length,
            count == (total + length - 1) / length,
    ;
}

/// Number of pieces of length `length` that a message of `total` bytes is
/// cut into.
pub fn fragment_count(total: usize, length: usize) -> (count: usize)
    requires
        total <= PROTOCOL_MAXIMUM_PACKET_SIZE,
    ensures
        count == spec_fragment_count(total as int, length as int),
        count <= total,
{
    if length == 0 || total == 0 {
        return 0;
    }
    let count = (total - 1) / length + 1;
    proof {
        let t = total as int;
        let l = length as int;
        assert((t - 1) / l + 1 == (t + l - 1) / l && (t - 1) / l <= t - 1) by (nonlinear_arith)
            requires
                0 < l,
                0 < t,
        ;
    }
    count
}

/// Cuts `payload` into pieces of `length` bytes, the last one maybe shorter.
pub fn split(payload: &[u8], length: usize) -> (pieces: Vec<Vec<u8>>)
    requires
        0 < length,
        payload.len() <= PROTOCOL_MAXIMUM_PACKET_SIZE,
    ensures
        pieces@.len() == spec_fragment_count(payload@.len() as int, length as int),
        forall|i: int|
            0 <= i < pieces@.len() ==> (#[trigger] pieces@[i])@ == spec_piece(
                payload@,
                length as int,
                i,
            ),
{
    let total = payload.len();
    let count = fragment_count(total, length);
    let mut pieces: Vec<Vec<u8>> = Vec::new();
    let mut i: usize = 0;
    let mut start: usize = 0;
    while i < count
        invariant
            0 < length,
            total == payload@.len(),
            total <= PROTOCOL_MAXIMUM_PACKET_SIZE,
            count == spec_fragment_count(total as int, length as int),
            i <= count,
            start == i * length || (i == count && start == total),
            start <= total,
            pieces@.len() == i,
            forall|j: int|
                0 <= j < i ==> (#[trigger] pieces@[j])@ == spec_piece(payload@, length as int, j),
        decreases count - i,
    {
        proof {
            lemma_piece_bounds(total as int, length as int, i as int);
        }
        let end: usize = if total - start <= length {
            total
        } else {
            start + length
        };
        let piece = copy_range(payload, start, end);
        pieces.push(piece);
        start = end;
        i = i + 1;
    }
    pieces
}

/// A message that arrives in pieces.
#[derive(Debug, Clone, PartialEq, Eq)]
pub struct Reassembly {
    total_length: u32,
    fragment_count: u32,
    received: Vec<bool>,
    remaining: u32,
    buffer: Vec<u8>,
}

/// The mathematical value of a [`Reassembly`].
pub struct ReassemblyView {
    /// Length in bytes of the whole message.
    pub total_length: nat,
    /// Number of pieces the message was cut into.
    pub fragment_count: nat,
    /// Which pieces have come.
    pub received: Seq<bool>,
    /// The bytes of the message as far as they have come; zero elsewhere.
    pub buffer: Seq<u8>,
}

/// Number of entries of `s` that are `false`.
pub open spec fn spec_missing(s: Seq<bool>) -> nat
    decreases s.len(),
{
    if s.len() == 0 {
        0
    } else {
        spec_missing(s.drop_last()) + if s.last() {
            0nat
        } else {
            1nat
        }
    }
}

/// Marking a missing entry lowers the number of missing entries by one.
proof fn lemma_missing_after_mark(s: Seq<bool>, i: int)
    requires
        0 <= i < s.len(),
        !s[i],
    ensures
        spec_missing(s.update(i, true)) + 1 == spec_missing(s),
    decreases s.len(),
{
    let marked = s.update(i, true);
    if i == s.len() - 1 {
        assert(marked.drop_last() =~= s.drop_last());
    } else {
        assert(marked.drop_last() =~= s.drop_last().update(i, true));
        lemma_missing_after_mark(s.drop_last(), i);
    }
}

/// Where no entry is missing, every entry is `true`.
proof fn lemma_none_missing(s: Seq<bool>)
    requires
        spec_missing(s) == 0,
    ensures
        forall|i: int| 0 <= i < s.len() ==> s[i],
    decreases s.len(),
{
    if s.len() > 0 {
        lemma_none_missing(s.drop_last());
        assert forall|i: int| 0 <= i < s.len() implies s[i] by {
            if i < s.len() - 1 {
                assert(s.drop_last()[i] == s[i]);
            }
        }
    }
}

/// A sequence of `false` entries misses each of them.
proof fn lemma_all_missing(s: Seq<bool>)
    requires
        forall|i: int| 0 <= i < s.len() ==> !s[i],
    ensures
        spec_missing(s) == s.len(),
    decreases s.len(),
{
    if s.len() > 0 {
        lemma_all_missing(s.drop_last());
    }
}

impl ReassemblyView {
    /// Whether every piece has come.
    pub open spec fn complete(self) -> bool {
        forall|i: int| 0 <= i < self.received.len() ==> self.received[i]
    }

    /// Whether piece `number` with the given bytes for the given offset is
    /// taken in: its number is one of the message's, it has not come
    /// before, and its bytes lie inside the message.
    pub open spec fn takes(self, number: u32, offset: u32, data: Seq<u8>) -> bool {
        &&& number < self.fragment_count
        &&& !self.received[number as int]
        &&& offset + data.len() <= self.total_length
    }

    /// The reassembly after piece `number` was offered: where it is taken
    /// in, its bytes stand at `offset` and the piece is marked; otherwise
    /// nothing has changed.
    pub open spec fn with_piece(self, number: u32, offset: u32, data: Seq<u8>) -> ReassemblyView {
        if self.takes(number, offset, data) {
            ReassemblyView {
                received: self.received.update(number as int, true),
                buffer: self.buffer.subrange(0, offset as int) + data + self.buffer.subrange(
                    offset + data.len(),
                    self.buffer.len() as int,
                ),
                ..self
            }
        } else {
            self
        }
    }

    /// Whether the pieces that have come are those of `payload` cut at
    /// `length` bytes, each at its place.
    pub open spec fn agrees_with(self, payload: Seq<u8>, length: int) -> bool {
        &&& 0 < length
        &&& self.total_length == payload.len()
        &&& self.buffer.len() == payload.len()
        &&& self.fragment_count == spec_fragment_count(payload.len() as int, length)
        &&& self.received.len() == self.fragment_count
        &&& forall|k: int|
            0 <= k < payload.len() && self.received[k / length] ==> #[trigger] self.buffer[k]
                == payload[k]
    }
}

impl View for Reassembly {
    type V = ReassemblyView;

    closed spec fn view(&self) -> ReassemblyView {
        ReassemblyView {
            total_length: self.total_length as nat,
            fragment_count: self.fragment_count as nat,
            received: self.received@,
            buffer: self.buffer@,
        }
    }
}

impl Reassembly {
    /// The invariant of a reassembly: one mark for each piece, a buffer of
    /// the message's length, and sizes within the protocol's limits.
    pub closed spec fn wf(&self) -> bool {
        &&& self.received@.len() == self.fragment_count
        &&& self.buffer@.len() == self.total_length
        &&& self.remaining == spec_missing(self.received@)
        &&& self.fragment_count <= PROTOCOL_MAXIMUM_FRAGMENT_COUNT
        &&& self.total_length <= PROTOCOL_MAXIMUM_PACKET_SIZE
    }

    /// What the invariant says of the view.
    pub proof fn lemma_wf(&self)
        requires
            self.wf(),
        ensures
            self@.received.len() == self@.fragment_count,
            self@.buffer.len() == self@.total_length,
            self@.fragment_count <= PROTOCOL_MAXIMUM_FRAGMENT_COUNT,
            self@.total_length <= PROTOCOL_MAXIMUM_PACKET_SIZE,
    {
    }

    /// A reassembly for a message of `total_length` bytes in
    /// `fragment_count` pieces, none of which has come. `None` where a size
    /// is zero or beyond the protocol's limits, or where there would be
    /// more pieces than bytes.
    pub fn new(total_length: u32, fragment_count: u32) -> (r: Option<Reassembly>)
        ensures
            r is Some <==> (0 < fragment_count <= PROTOCOL_MAXIMUM_FRAGMENT_COUNT
                && fragment_count <= total_length <= PROTOCOL_MAXIMUM_PACKET_SIZE),
            r matches Some(a) ==> {
                &&& a.wf()
                &&& a@.total_length == total_length
                &&& a@.fragment_count == fragment_count
                &&& a@.received == Seq::new(fragment_count as nat, |i: int| false)
                &&& a@.buffer == Seq::new(total_length as nat, |i: int| 0u8)
            },
    {
        if fragment_count == 0 || fragment_count > PROTOCOL_MAXIMUM_FRAGMENT_COUNT
            || total_length < fragment_count || total_length as usize
            > PROTOCOL_MAXIMUM_PACKET_SIZE {
            return None;
        }
        let mut received: Vec<bool> = Vec::new();
        let mut i: u32 = 0;
        while i < fragment_count
            invariant
                i <= fragment_count,
                received@ == Seq::new(i as nat, |j: int| false),
            decreases fragment_count - i,
        {
            received.push(false);
            i = i + 1;
            assert(received@ =~= Seq::new(i as nat, |j: int| false));
        }
        let mut buffer: Vec<u8> = Vec::new();
        let mut k: u32 = 0;
        while k < total_length
            invariant
                k <= total_length,
                buffer@ == Seq::new(k as nat, |j: int| 0u8),
            decreases total_length - k,
        {
            buffer.push(0u8);
            k = k + 1;
            assert(buffer@ =~= Seq::new(k as nat, |j: int| 0u8));
        }
        proof {
            lemma_all_missing(received@);
        }
        Some(Reassembly { total_length, fragment_count, received, remaining: fragment_count, buffer })
    }

    /// A reassembly that is complete from the start: a message that came in
    /// one piece.
    pub fn whole(data: Vec<u8>) -> (r: Reassembly)
        requires
            data@.len() <= PROTOCOL_MAXIMUM_PACKET_SIZE,
        ensures
            r.wf(),
            r@.complete(),
            r@.buffer == data@,
            r@.total_length == data@.len(),
            r@.fragment_count == 1,
            r@.received == seq![true],
    {
        let mut received: Vec<bool> = Vec::new();
        received.push(true);
        proof {
            assert(received@ =~= seq![true]);
            lemma_all_marked(received@);
        }
        let total_length = data.len() as u32;
        Reassembly { total_length, fragment_count: 1, received, remaining: 0, buffer: data }
    }

    /// Offers piece `number` with the bytes `data` for the place `offset`.
    /// Returns whether it was taken in; a piece that came before, or that
    /// does not fit the message, changes nothing.
    pub fn insert(&mut self, number: u32, offset: u32, data: &[u8]) -> (taken: bool)
        requires
            old(self).wf(),
        ensures
            final(self).wf(),
            taken == old(self)@.takes(number, offset, data@),
            final(self)@ == old(self)@.with_piece(number, offset, data@),
    {
        if number >= self.fragment_count {
            return false;
        }
        if self.received[number as usize] {
            return false;
        }
        let length = data.len();
        if offset > self.total_length || length > (self.total_length - offset) as usize {
            return false;
        }
        let ghost before = self.buffer@;
        let start = offset as usize;
        let mut k: usize = 0;
        while k < length
            invariant
                k <= length,
                length == data@.len(),
                start + length <= before.len(),
                before.len() <= PROTOCOL_MAXIMUM_PACKET_SIZE,
                self.buffer@.len() == before.len(),
                self.buffer@ == before.subrange(0, start as int) + data@.subrange(0, k as int)
                    + before.subrange(start + k, before.len() as int),
                self.total_length == old(self).total_length,
                self.fragment_count == old(self).fragment_count,
                self.received == old(self).received,
                self.remaining == old(self).remaining,
            decreases length - k,
        {
            let ghost prior = self.buffer@;
            self.buffer[start + k] = data[k];
            k = k + 1;
            assert(self.buffer@ =~= before.subrange(0, start as int) + data@.subrange(0, k as int)
                + before.subrange(start + k, before.len() as int));
        }
        assert(data@.subrange(0, length as int) =~= data@);
        proof {
            lemma_missing_after_mark(self.received@, number as int);
        }
        self.received[number as usize] = true;
        self.remaining = self.remaining - 1;
        true
    }

    /// Whether every piece has come.
    pub fn is_complete(&self) -> (r: bool)
        requires
            self.wf(),
        ensures
            r == self@.complete(),
    {
        proof {
            assert(self@.received == self.received@);
            if self.remaining == 0 {
                lemma_none_missing(self.received@);
            } else {
                if self@.complete() {
                    assert forall|i: int| 0 <= i < self.received@.len() implies self.received@[i] by {
                        assert(self@.received[i]);
                    }
                    lemma_all_marked(self.received@);
                }
            }
        }
        self.remaining == 0
    }

    /// Number of pieces the message was cut into.
    pub fn fragment_count(&self) -> (n: u32)
        ensures
            n == self@.fragment_count,
    {
        self.fragment_count
    }

    /// Length in bytes of the whole message.
    pub fn total_length(&self) -> (n: u32)
        ensures
            n == self@.total_length,
    {
        self.total_length
    }

    /// The bytes of the message as far as they have come.
    pub fn into_data(self) -> (data: Vec<u8>)
        ensures
            data@ == self@.buffer,
    {
        self.buffer
    }
}

/// A sequence whose entries are all `true` misses none.
proof fn lemma_all_marked(s: Seq<bool>)
    requires
        forall|i: int| 0 <= i < s.len() ==> s[i],
    ensures
        spec_missing(s) == 0,
    decreases s.len(),
{
    if s.len() > 0 {
        assert forall|i: int| 0 <= i < s.drop_last().len() implies s.drop_last()[i] by {
            assert(s.drop_last()[i] == s[i]);
        }
        lemma_all_marked(s.drop_last());
    }
}

/// The reassembly of a message of `total` bytes in `count` pieces before any
/// piece has come.
pub open spec fn spec_fresh(total: nat, count: nat) -> ReassemblyView {
    ReassemblyView {
        total_length: total,
        fragment_count: count,
        received: Seq::new(count, |i: int| false),
        buffer: Seq::new(total, |i: int| 0u8),
    }
}

/// The reassembly after the pieces of `payload` with the numbers in `order`
/// were offered one after the other, each with its own bytes and offset.
pub open spec fn spec_after_pieces(
    r: ReassemblyView,
    payload: Seq<u8>,
    length: int,
    order: Seq<int>,
) -> ReassemblyView
    decreases order.len(),
{
    if order.len() == 0 {
        r
    } else {
        let i = order.last();
        spec_after_pieces(r, payload, length, order.drop_last()).with_piece(
            i as u32,
            (i * length) as u32,
            spec_piece(payload, length, i),
        )
    }
}

/// A reassembly in which no piece has come agrees with every message of its
/// size.
pub proof fn lemma_fresh_agrees(payload: Seq<u8>, length: int)
    requires
        0 < length,
    ensures
        spec_fresh(
            payload.len(),
            spec_fragment_count(payload.len() as int, length) as nat,
        ).agrees_with(payload, length),
{
    let total = payload.len() as int;
    let count = spec_fragment_count(total, length);
    if total > 0 {
        assert(count >= 0) by (nonlinear_arith)
            requires
                count == (total + length - 1) / length,
                0 < length,
                0 < total,
        ;
    }
    let r = spec_fresh(payload.len(), count as nat);
    assert forall|k: int| 0 <= k < payload.len() && r.received[k / length] implies #[trigger] r.buffer[k]
        == payload[k] by {
        lemma_byte_in_piece(total, length, k);
    }
}

/// Taking in a piece of the message keeps the agreement with the message,
/// marks the piece and forgets no mark.
pub proof fn lemma_piece_keeps_agreement(r: ReassemblyView, payload: Seq<u8>, length: int, i: int)
    requires
        r.agrees_with(payload, length),
        0 <= i < r.fragment_count,
        payload.len() <= PROTOCOL_MAXIMUM_PACKET_SIZE,
    ensures
        ({
            let next = r.with_piece(i as u32, (i * length) as u32, spec_piece(payload, length, i));
            &&& next.agrees_with(payload, length)
            &&& next.received[i]
            &&& forall|j: int| 0 <= j < r.received.len() && r.received[j] ==> next.received[j]
        }),
{
    let total = payload.len() as int;
    lemma_piece_bounds(total, length, i);
    let start = i * length;
    let end = spec_piece_end(total, length, i);
    let data = spec_piece(payload, length, i);
    assert(i <= start) by (nonlinear_arith)
        requires
            start == i * length,
            0 <= i,
            0 < length,
    ;
    assert(i as u32 == i && start as u32 == start);
    let next = r.with_piece(i as u32, start as u32, data);
    if r.takes(i as u32, start as u32, data) {
        assert forall|k: int| 0 <= k < payload.len() && next.received[k / length] implies #[trigger] next.buffer[k]
            == payload[k] by {
            lemma_byte_in_piece(total, length, k);
            if start <= k < end {
                assert(next.buffer[k] == data[k - start]);
            } else {
                assert(k / length != i);
                assert(r.received[k / length]);
                assert(next.buffer[k] == r.buffer[k]);
            }
        }
    }
}

/// A complete reassembly that agrees with a message holds that message.
pub proof fn lemma_complete_agreement(r: ReassemblyView, payload: Seq<u8>, length: int)
    requires
        r.agrees_with(payload, length),
        r.complete(),
    ensures
        r.buffer == payload,
{
    assert forall|k: int| 0 <= k < payload.len() implies r.buffer[k] == payload[k] by {
        lemma_byte_in_piece(payload.len() as int, length, k);
        assert(r.received[k / length]);
    }
    assert(r.buffer =~= payload);
}

/// What holds after any run of pieces of one message: the reassembly agrees
/// with the message and every piece offered is marked.
pub proof fn lemma_after_pieces(payload: Seq<u8>, length: int, order: Seq<int>)
    requires
        0 < length,
        0 < payload.len() <= PROTOCOL_MAXIMUM_PACKET_SIZE,
        forall|j: int|
            0 <= j < order.len() ==> 0 <= #[trigger] order[j] < spec_fragment_count(
                payload.len() as int,
                length,
            ),
    ensures
        ({
            let count = spec_fragment_count(payload.len() as int, length) as nat;
            let r = spec_after_pieces(spec_fresh(payload.len(), count), payload, length, order);
            &&& r.agrees_with(payload, length)
            &&& forall|j: int| 0 <= j < order.len() ==> r.received[#[trigger] order[j]]
        }),
    decreases order.len(),
{
    let count = spec_fragment_count(payload.len() as int, length) as nat;
    let fresh = spec_fresh(payload.len(), count);
    if order.len() == 0 {
        lemma_fresh_agrees(payload, length);
    } else {
        let i = order.last();
        let before = spec_after_pieces(fresh, payload, length, order.drop_last());
        assert forall|j: int| 0 <= j < order.drop_last().len() implies 0
            <= #[trigger] order.drop_last()[j] < spec_fragment_count(
            payload.len() as int,
            length,
        ) by {
            assert(order.drop_last()[j] == order[j]);
        }
        lemma_after_pieces(payload, length, order.drop_last());
        assert(0 <= order[order.len() - 1] < count);
        lemma_piece_keeps_agreement(before, payload, length, i);
        let r = spec_after_pieces(fresh, payload, length, order);
        assert forall|j: int| 0 <= j < order.len() implies r.received[#[trigger] order[j]] by {
            if j < order.len() - 1 {
                assert(order.drop_last()[j] == order[j]);
                assert(before.received[order.drop_last()[j]]);
            }
        }
    }
}

/// Fragmentation is invisible to the receiver: cut a message into pieces of
/// any length, offer the pieces in any order and as often as you like; once
/// each piece has been offered, the reassembly is complete and holds the
/// message.
pub proof fn lemma_reassembly_restores_payload(payload: Seq<u8>, length: int, order: Seq<int>)
    requires
        0 < length,
        0 < payload.len() <= PROTOCOL_MAXIMUM_PACKET_SIZE,
        forall|j: int|
            0 <= j < order.len() ==> 0 <= #[trigger] order[j] < spec_fragment_count(
                payload.len() as int,
                length,
            ),
        forall|i: int|
            0 <= i < spec_fragment_count(payload.len() as int, length) ==> order.contains(i),
    ensures
        ({
            let count = spec_fragment_count(payload.len() as int, length) as nat;
            let r = spec_after_pieces(spec_fresh(payload.len(), count), payload, length, order);
            &&& r.complete()
            &&& r.buffer == payload
        }),
{
    let count = spec_fragment_count(payload.len() as int, length) as nat;
    let r = spec_after_pieces(spec_fresh(payload.len(), count), payload, length, order);
    lemma_after_pieces(payload, length, order);
    assert forall|i: int| 0 <= i < r.received.len() implies r.received[i] by {
        assert(order.contains(i));
        let j = choose|j: int| 0 <= j < order.len() && order[j] == i;
        assert(r.received[order[j]]);
    }
    lemma_complete_agreement(r, payload, length);
}

} // verus!
