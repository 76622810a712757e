//! The timeout phase: sending commands again and giving up peers.

use vstd::prelude::*;
use crate::peer::{
    lemma_in_transit_update, lemma_sent_views_update, sent_views, Counters, Peer, PeerState,
    PeerView, SentView,
};
use crate::timeout::{TimeoutPolicy, Verdict};

verus! {

/// Whether the policy gives the peer up at `now` for one of the commands
/// from place `i` on.
pub open spec fn spec_gives_up(
    sent: Seq<SentView>,
    i: int,
    policy: TimeoutPolicy,
    earliest: u32,
    now: u32,
) -> bool
    decreases sent.len() - i,
{
    if i < 0 || i >= sent.len() {
        false
    } else {
        policy.spec_verdict(sent[i].timing, earliest, now) == Verdict::TimedOut || spec_gives_up(
            sent,
            i + 1,
            policy,
            earliest,
            now,
        )
    }
}

/// What marking the commands whose timeout has run out yields.
pub struct Marked {
    /// The commands that await acknowledgement.
    pub sent: Seq<SentView>,
    /// Number of commands that were marked.
    pub count: int,
}

/// Marks the commands from place `i` on whose timeout has run out at `now`
/// as due to be sent again, unless they are marked already, and doubles
/// their timeouts.
pub open spec fn spec_mark(
    sent: Seq<SentView>,
    i: int,
    policy: TimeoutPolicy,
    earliest: u32,
    now: u32,
    count: int,
) -> Marked
    decreases sent.len() - i,
{
    if i < 0 || i >= sent.len() {
        Marked { sent, count }
    } else if !sent[i].resend && policy.spec_verdict(sent[i].timing, earliest, now)
        == Verdict::Resend {
        spec_mark(
            sent.update(
                i,
                SentView {
                    timing: sent[i].timing.spec_resent(now, policy.limit),
                    resend: true,
                    ..sent[i]
                },
            ),
            i + 1,
            policy,
            earliest,
            now,
            count + 1,
        )
    } else {
        spec_mark(sent, i + 1, policy, earliest, now, count)
    }
}

impl PeerView {
    /// Whether the peer is given up at `now`: it has commands that await
    /// acknowledgement, and the policy gives it up for one of them, the
    /// first of them being the earliest.
    pub open spec fn timed_out(self, now: u32) -> bool {
        &&& self.state != PeerState::Disconnected
        &&& self.state != PeerState::Zombie
        &&& self.sent.len() > 0
        &&& spec_gives_up(self.sent, 0, self.timeouts, self.sent[0].timing.sent_time, now)
    }

    /// The peer after the timeout phase at `now`. A peer that is given up
    /// becomes a zombie. Otherwise every command whose timeout has run out
    /// is marked to be sent again and counts as one packet lost.
    pub open spec fn after_timeouts(self, now: u32) -> PeerView {
        if self.state == PeerState::Disconnected || self.state == PeerState::Zombie
            || self.sent.len() == 0 {
            self
        } else if self.timed_out(now) {
            self.failed()
        } else {
            let marked = spec_mark(
                self.sent,
                0,
                self.timeouts,
                self.sent[0].timing.sent_time,
                now,
                0,
            );
            PeerView {
                sent: marked.sent,
                counters: Counters {
                    packets_lost: ((self.counters.packets_lost + marked.count) % 0x1_0000_0000) as u32,
                    ..self.counters
                },
                ..self
            }
        }
    }
}

impl Peer {
    /// Whether the policy gives the peer up at `now` for one of its
    /// commands.
    fn gives_up(&self, earliest: u32, now: u32) -> (r: bool)
        ensures
            r == spec_gives_up(self@.sent, 0, self@.timeouts, earliest, now),
    {
        let ghost sent = self@.sent;
        let mut i: usize = 0;
        while i < self.sent.len()
            invariant
                i <= self.sent@.len(),
                sent == sent_views(self.sent@),
                sent == self@.sent,
                spec_gives_up(sent, 0, self@.timeouts, earliest, now) == spec_gives_up(
                    sent,
                    i as int,
                    self@.timeouts,
                    earliest,
                    now,
                ),
            decreases self.sent@.len() - i,
        {
            assert(sent[i as int] == self.sent@[i as int]@);
            match self.timeouts.verdict(&self.sent[i].timing, earliest, now) {
                Verdict::TimedOut => {
                    return true;
                },
                _ => {},
            }
            i = i + 1;
        }
        false
    }

    /// The timeout phase at `now`: gives the peer up, or marks the
    /// commands whose timeout has run out to be sent again. Returns whether
    /// the peer was given up.
    pub fn service_timeouts(&mut self, now: u32) -> (timed_out: bool)
        requires
            old(self).wf(),
        ensures
            final(self).wf(),
            timed_out == old(self)@.timed_out(now),
            final(self)@ == old(self)@.after_timeouts(now),
            old(self)@.state.may_become(final(self)@.state),
            old(self)@.keeps(final(self)@),
    {
        if self.state == PeerState::Disconnected || self.state == PeerState::Zombie
            || self.sent.len() == 0 {
            return false;
        }
        let ghost start = self@;
        assert(start.sent[0] == self.sent@[0]@);
        let earliest = self.sent[0].timing.sent_time;
        if self.gives_up(earliest, now) {
            self.fail();
            return true;
        }
        let policy = self.timeouts;
        let mut i: usize = 0;
        let mut lost: u32 = 0;
        let ghost mut count: int = 0;
        while i < self.sent.len()
            invariant
                self.wf(),
                i <= self@.sent.len(),
                policy == start.timeouts,
                start.live(),
                lost == count % 0x1_0000_0000,
                0 <= count,
                self@ == (PeerView { sent: self@.sent, ..start }),
                spec_mark(self@.sent, i as int, policy, earliest, now, count) == spec_mark(
                    start.sent,
                    0,
                    policy,
                    earliest,
                    now,
                    0,
                ),
            decreases self@.sent.len() - i,
        {
            let ghost sent = self.sent@;
            let ghost views = self@.sent;
            assert(views[i as int] == sent[i as int]@);
            if !self.sent[i].resend {
                match policy.verdict(&self.sent[i].timing, earliest, now) {
                    Verdict::Resend => {
                        let timing = self.sent[i].timing.resent(now, policy.limit);
                        self.sent[i].timing = timing;
                        self.sent[i].resend = true;
                        lost = lost.wrapping_add(1);
                        proof {
                            count = count + 1;
                            let changed = self.sent@[i as int];
                            assert(self.sent@ =~= sent.update(i as int, changed));
                            lemma_sent_views_update(sent, i as int, changed);
                            lemma_in_transit_update(views, i as int, changed@);
                            assert forall|k: int| 0 <= k < self@.sent.len() implies (
                            #[trigger] self@.sent[k]).command.wf()
                                && self@.sent[k].command.header.acknowledge by {
                                if k != i {
                                    assert(self@.sent[k] == views[k]);
                                }
                            }
                        }
                    },
                    _ => {},
                }
            }
            i = i + 1;
        }
        self.counters.packets_lost = self.counters.packets_lost.wrapping_add(lost);
        false
    }
}

} // verus!
