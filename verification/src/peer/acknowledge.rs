//! What a peer does when one of its reliable commands is acknowledged.

use vstd::prelude::*;
use crate::channel::{ahead, spec_ahead, RELIABLE_WINDOW};
use crate::peer::control::CONTROL_CHANNEL;
use crate::peer::{
    lemma_event_views_push, lemma_in_transit_remove, lemma_sent_views_remove, sent_views, Counters,
    Event, EventView, Peer, PeerState, PeerView, SentView, Session,
};
use crate::throttle::Throttle;
use crate::time::{spec_time_difference, time_difference};
use crate::wire::CommandBody;

verus! {

/// The place of the first command that awaits acknowledgement on the given
/// channel under the given sequence number; the number of such commands
/// where there is none.
pub open spec fn spec_find_sent(sent: Seq<SentView>, channel_id: u8, sequence: u16) -> int
    decreases sent.len(),
{
    if sent.len() == 0 {
        0
    } else if sent[0].command.header.channel_id == channel_id
        && sent[0].command.header.reliable_sequence_number == sequence {
        0
    } else {
        1 + spec_find_sent(sent.drop_first(), channel_id, sequence)
    }
}

/// The round-trip time that the acknowledgement at `now` of a command first
/// sent at `sent_time` measures: the time between the two, and at least one
/// millisecond.
pub open spec fn spec_sample(now: u32, sent_time: u32) -> u32 {
    if spec_time_difference(now, sent_time) < 1 {
        1
    } else {
        spec_time_difference(now, sent_time) as u32
    }
}

/// Whether a measurement interval of the throttle ends at `now`: none has
/// begun yet, or the current one has lasted its length.
pub open spec fn spec_interval_over(throttle: Throttle, now: u32) -> bool {
    throttle.epoch == 0 || spec_time_difference(now, throttle.epoch) >= throttle.interval
}

impl PeerView {
    /// Whether an acknowledgement of the given sequence number on the given
    /// channel lies in the sliding window: the channel is the control
    /// channel or one of the peer's, and the number is one of the last
    /// `RELIABLE_WINDOW` that were given out on it.
    pub open spec fn acknowledgeable(self, channel_id: u8, sequence: u16) -> bool {
        if channel_id == CONTROL_CHANNEL {
            spec_ahead(sequence, self.control_sequence_number) <= RELIABLE_WINDOW
        } else {
            channel_id < self.channels.len() && spec_ahead(
                sequence,
                self.channels[channel_id as int].outgoing_reliable_sequence_number,
            ) <= RELIABLE_WINDOW
        }
    }

    /// The peer after the round-trip time of an acknowledged command was
    /// measured at `now`: the sample enters the estimator, and where a
    /// measurement interval of the throttle ends the throttle is adjusted
    /// and a new interval begins.
    pub open spec fn measured(self, sample: u32, now: u32) -> PeerView {
        let rtt = self.rtt.spec_sampled(sample);
        if spec_interval_over(self.throttle, now) {
            PeerView {
                rtt: rtt.spec_next_interval(),
                throttle: Throttle {
                    epoch: now,
                    ..self.throttle.spec_adjusted(rtt.lowest, rtt.mean, rtt.variance)
                },
                session: Session { last_receive_time: now, ..self.session },
                ..self
            }
        } else {
            PeerView {
                rtt,
                session: Session { last_receive_time: now, ..self.session },
                ..self
            }
        }
    }

    /// The peer after the command at place `i` of those awaiting
    /// acknowledgement was acknowledged at `now`: the command is gone, its
    /// payload no longer in transit, and its round-trip time measured.
    pub open spec fn settled(self, i: int, now: u32) -> PeerView {
        PeerView {
            sent: self.sent.remove(i),
            counters: Counters {
                reliable_data_in_transit: (self.counters.reliable_data_in_transit
                    - self.sent[i].command.data.len()) as u32,
                ..self.counters
            },
            ..self
        }.measured(spec_sample(now, self.sent[i].timing.sent_time), now)
    }

    /// The peer after it learned that the command with the given body has
    /// been acknowledged and is settled:
    /// - a peer that acknowledges a connect and hears that its answer has
    ///   arrived is connected, and says so in an event;
    /// - a peer that is disconnecting and hears that its disconnect has
    ///   arrived is a zombie, and says in an event that the session has
    ///   ended;
    /// - a peer that is to disconnect later, and has nothing left to send,
    ///   begins to disconnect.
    pub open spec fn advanced_by(self, body: CommandBody) -> PeerView {
        if self.state == PeerState::AcknowledgingConnect && body is VerifyConnect {
            PeerView {
                state: PeerState::Connected,
                dispatched: self.dispatched.push(
                    EventView::Connect { peer: self.id, data: self.session.event_data },
                ),
                ..self
            }
        } else if self.state == PeerState::Disconnecting && body is Disconnect {
            PeerView {
                state: PeerState::Zombie,
                dispatched: self.after_queues_reset().dispatched.push(
                    EventView::Disconnect { peer: self.id, data: self.session.event_data },
                ),
                ..self.after_queues_reset()
            }
        } else if self.state == PeerState::DisconnectLater && self.idle() {
            self.disconnecting(self.session.event_data)
        } else {
            self
        }
    }

    /// The peer after an acknowledgement of the given sequence number on
    /// the given channel arrived at `now`. An acknowledgement of a command
    /// that does not await one changes nothing.
    pub open spec fn after_acknowledge(self, channel_id: u8, sequence: u16, now: u32) -> PeerView {
        let i = spec_find_sent(self.sent, channel_id, sequence);
        if i < self.sent.len() {
            self.settled(i, now).advanced_by(self.sent[i].command.body)
        } else {
            self
        }
    }
}

impl Peer {
    /// Whether an acknowledgement of the given sequence number on the given
    /// channel lies in the sliding window.
    pub fn can_acknowledge(&self, channel_id: u8, sequence: u16) -> (r: bool)
        requires
            self.wf(),
        ensures
            r == self@.acknowledgeable(channel_id, sequence),
    {
        if channel_id == CONTROL_CHANNEL {
            ahead(sequence, self.control_sequence_number) <= RELIABLE_WINDOW
        } else if (channel_id as usize) < self.channels.len() {
            let channel = &self.channels[channel_id as usize];
            assert(channel@ == self@.channels[channel_id as int]);
            ahead(sequence, channel.outgoing_reliable_sequence_number()) <= RELIABLE_WINDOW
        } else {
            false
        }
    }

    /// The place of the command that awaits acknowledgement on the given
    /// channel under the given sequence number.
    fn find_sent(&self, channel_id: u8, sequence: u16) -> (at: usize)
        ensures
            at == spec_find_sent(self@.sent, channel_id, sequence),
            at <= self@.sent.len(),
    {
        let ghost sent = self@.sent;
        let mut i: usize = 0;
        assert(sent.skip(0) =~= sent);
        while i < self.sent.len() && !(self.sent[i].command.header.channel_id == channel_id
            && self.sent[i].command.header.reliable_sequence_number == sequence)
            invariant
                i <= self.sent@.len(),
                sent == sent_views(self.sent@),
                spec_find_sent(sent, channel_id, sequence) == i + spec_find_sent(
                    sent.skip(i as int),
                    channel_id,
                    sequence,
                ),
            decreases self.sent@.len() - i,
        {
            assert(sent.skip(i as int)[0] == sent[i as int]);
            assert(sent.skip(i as int).drop_first() =~= sent.skip(i + 1));
            i = i + 1;
        }
        proof {
            if i < sent.len() {
                assert(sent.skip(i as int)[0] == sent[i as int]);
            }
        }
        i
    }

    /// Takes a round-trip time measured at `now` into the estimator and, at
    /// the end of a measurement interval, adjusts the throttle.
    fn measure(&mut self, sample: u32, now: u32)
        requires
            old(self).wf(),
        ensures
            final(self).wf(),
            final(self)@ == old(self)@.measured(sample, now),
    {
        self.rtt.sample(sample);
        if self.throttle.epoch == 0 || time_difference(now, self.throttle.epoch)
            >= self.throttle.interval {
            self.throttle.adjust(self.rtt.lowest, self.rtt.mean, self.rtt.variance);
            self.throttle.epoch = now;
            self.rtt.next_interval();
        }
        self.session.last_receive_time = now;
    }

    /// Moves the peer on after the command with the given body has been
    /// acknowledged and settled.
    fn advance_by(&mut self, body: CommandBody)
        requires
            old(self).wf(),
        ensures
            final(self).wf(),
            final(self)@ == old(self)@.advanced_by(body),
            old(self)@.state.may_become(final(self)@.state),
            old(self)@.keeps(final(self)@),
    {
        let verified = match body {
            CommandBody::VerifyConnect { .. } => true,
            _ => false,
        };
        let parted = match body {
            CommandBody::Disconnect { .. } => true,
            _ => false,
        };
        if self.state == PeerState::AcknowledgingConnect && verified {
            self.state = PeerState::Connected;
            let event = Event::Connect { peer: self.id, data: self.session.event_data };
            proof {
                lemma_event_views_push(self.dispatched@, event);
            }
            self.dispatched.push_back(event);
        } else if self.state == PeerState::Disconnecting && parted {
            self.reset_queues();
            self.state = PeerState::Zombie;
            let event = Event::Disconnect { peer: self.id, data: self.session.event_data };
            proof {
                lemma_event_views_push(self.dispatched@, event);
            }
            self.dispatched.push_back(event);
        } else if self.state == PeerState::DisconnectLater && self.outgoing.len() == 0
            && self.staged.len() == 0 && self.sent.len() == 0 {
            let data = self.session.event_data;
            self.begin_disconnect(data);
        }
    }

    /// Takes note of an acknowledgement of the given sequence number on the
    /// given channel that arrived at `now`.
    pub fn acknowledge(&mut self, channel_id: u8, sequence: u16, now: u32)
        requires
            old(self).wf(),
        ensures
            final(self).wf(),
            final(self)@ == old(self)@.after_acknowledge(channel_id, sequence, now),
            old(self)@.state.may_become(final(self)@.state),
            old(self)@.keeps(final(self)@),
    {
        let at = self.find_sent(channel_id, sequence);
        if at >= self.sent.len() {
            return ;
        }
        let ghost before = self@;
        proof {
            lemma_sent_views_remove(self.sent@, at as int);
            lemma_in_transit_remove(before.sent, at as int);
            assert forall|i: int| 0 <= i < before.sent.remove(at as int).len() implies (
            #[trigger] before.sent.remove(at as int)[i]).command.wf() && before.sent.remove(
                at as int,
            )[i].command.header.acknowledge by {
                if i < at {
                    assert(before.sent.remove(at as int)[i] == before.sent[i]);
                } else {
                    assert(before.sent.remove(at as int)[i] == before.sent[i + 1]);
                }
            }
        }
        let entry = self.sent.remove(at);
        assert(entry@ == before.sent[at as int]);
        self.counters.reliable_data_in_transit = self.counters.reliable_data_in_transit
            - entry.command.data.len() as u32;
        let elapsed = time_difference(now, entry.timing.sent_time);
        let sample = if elapsed < 1 {
            1
        } else {
            elapsed
        };
        self.measure(sample, now);
        self.advance_by(entry.command.body);
    }
}

} // verus!
