//! The retransmission policy: when a reliable command is sent again and when
//! the peer is given up.
//!
//! A command is first sent with a timeout of the mean round-trip time and
//! four times its variance. Each time the timeout runs out the command is
//! sent again and the timeout doubles, until it has doubled `limit` times.

use vstd::prelude::*;
use crate::consts::{PEER_TIMEOUT_LIMIT, PEER_TIMEOUT_MAXIMUM, PEER_TIMEOUT_MINIMUM};
use crate::time::{spec_time_difference, time_difference};

verus! {

/// The timeout parameters of one peer.
#[derive(Debug, Clone, Copy, PartialEq, Eq)]
pub struct TimeoutPolicy {
    /// Number of times a command's timeout doubles.
    pub limit: u32,
    /// Time in milliseconds after which a peer at the limit is given up.
    pub minimum: u32,
    /// Time in milliseconds after which a peer is given up regardless.
    pub maximum: u32,
}

/// When an unacknowledged command was sent and how long it waits.
#[derive(Debug, Clone, Copy, PartialEq, Eq)]
pub struct Retransmission {
    /// Time of the first transmission.
    pub sent_time: u32,
    /// Time of the last transmission.
    pub last_sent_time: u32,
    /// Current timeout in milliseconds.
    pub timeout: u32,
    /// Number of times the timeout has doubled.
    pub doublings: u32,
}

/// What is to be done about an unacknowledged command.
#[derive(Debug, Clone, Copy, PartialEq, Eq)]
pub enum Verdict {
    /// Its timeout has not run out.
    Wait,
    /// It is sent again.
    Resend,
    /// The peer is given up.
    TimedOut,
}

/// The value itself, or the default where it is zero.
pub open spec fn spec_or_default(value: u32, default: u32) -> u32 {
    if value == 0 {
        default
    } else {
        value
    }
}

impl TimeoutPolicy {
    /// The parameters a fresh peer starts with.
    pub open spec fn spec_new() -> TimeoutPolicy {
        TimeoutPolicy {
            limit: PEER_TIMEOUT_LIMIT,
            minimum: PEER_TIMEOUT_MINIMUM,
            maximum: PEER_TIMEOUT_MAXIMUM,
        }
    }

    /// The parameters as an application sets them: a zero stands for the
    /// default.
    pub open spec fn spec_configured(limit: u32, minimum: u32, maximum: u32) -> TimeoutPolicy {
        TimeoutPolicy {
            limit: spec_or_default(limit, PEER_TIMEOUT_LIMIT),
            minimum: spec_or_default(minimum, PEER_TIMEOUT_MINIMUM),
            maximum: spec_or_default(maximum, PEER_TIMEOUT_MAXIMUM),
        }
    }

    /// What is to be done at time `now` about a command, where the earliest
    /// unacknowledged command of the peer was first sent at `earliest`:
    /// the peer is given up once that command has been outstanding for the
    /// maximum, or for the minimum while this command's timeout has doubled
    /// `limit` times; failing that the command is sent again once its
    /// timeout has run out.
    pub open spec fn spec_verdict(self, command: Retransmission, earliest: u32, now: u32) -> Verdict {
        let outstanding = spec_time_difference(now, earliest);
        if outstanding >= self.maximum {
            Verdict::TimedOut
        } else if command.doublings >= self.limit && outstanding >= self.minimum {
            Verdict::TimedOut
        } else if spec_time_difference(now, command.last_sent_time) >= command.timeout {
            Verdict::Resend
        } else {
            Verdict::Wait
        }
    }

    /// The parameters a fresh peer starts with.
    pub fn new() -> (p: TimeoutPolicy)
        ensures
            p == TimeoutPolicy::spec_new(),
    {
        TimeoutPolicy {
            limit: PEER_TIMEOUT_LIMIT,
            minimum: PEER_TIMEOUT_MINIMUM,
            maximum: PEER_TIMEOUT_MAXIMUM,
        }
    }

    /// The parameters as an application sets them: a zero stands for the
    /// default.
    pub fn configured(limit: u32, minimum: u32, maximum: u32) -> (p: TimeoutPolicy)
        ensures
            p == TimeoutPolicy::spec_configured(limit, minimum, maximum),
    {
        TimeoutPolicy {
            limit: if limit == 0 {
                PEER_TIMEOUT_LIMIT
            } else {
                limit
            },
            minimum: if minimum == 0 {
                PEER_TIMEOUT_MINIMUM
            } else {
                minimum
            },
            maximum: if maximum == 0 {
                PEER_TIMEOUT_MAXIMUM
            } else {
                maximum
            },
        }
    }

    /// What is to be done at time `now` about a command, where the earliest
    /// unacknowledged command of the peer was first sent at `earliest`.
    pub fn verdict(&self, command: &Retransmission, earliest: u32, now: u32) -> (v: Verdict)
        ensures
            v == self.spec_verdict(*command, earliest, now),
    {
        let outstanding = time_difference(now, earliest);
        if outstanding >= self.maximum {
            Verdict::TimedOut
        } else if command.doublings >= self.limit && outstanding >= self.minimum {
            Verdict::TimedOut
        } else if time_difference(now, command.last_sent_time) >= command.timeout {
            Verdict::Resend
        } else {
            Verdict::Wait
        }
    }
}

impl Retransmission {
    /// The record of a command first sent at `now` with the given timeout.
    pub open spec fn spec_first(now: u32, timeout: u32) -> Retransmission {
        Retransmission { sent_time: now, last_sent_time: now, timeout, doublings: 0 }
    }

    /// The record after the command was sent again at `now`: the timeout
    /// has doubled, unless it had doubled `limit` times before.
    pub open spec fn spec_resent(self, now: u32, limit: u32) -> Retransmission {
        if self.doublings < limit {
            Retransmission {
                sent_time: self.sent_time,
                last_sent_time: now,
                timeout: if 2 * self.timeout > u32::MAX {
                    u32::MAX
                } else {
                    (2 * self.timeout) as u32
                },
                doublings: (self.doublings + 1) as u32,
            }
        } else {
            Retransmission { last_sent_time: now, ..self }
        }
    }

    /// The record of a command first sent at `now` with the given timeout.
    pub fn first(now: u32, timeout: u32) -> (r: Retransmission)
        ensures
            r == Retransmission::spec_first(now, timeout),
    {
        Retransmission { sent_time: now, last_sent_time: now, timeout, doublings: 0 }
    }

    /// The record after the command was sent again at `now`.
    pub fn resent(&self, now: u32, limit: u32) -> (r: Retransmission)
        ensures
            r == self.spec_resent(now, limit),
            r.sent_time == self.sent_time,
            r.doublings <= limit || r.doublings == self.doublings,
    {
        if self.doublings < limit {
            Retransmission {
                sent_time: self.sent_time,
                last_sent_time: now,
                timeout: if self.timeout > u32::MAX / 2 {
                    u32::MAX
                } else {
                    2 * self.timeout
                },
                doublings: self.doublings + 1,
            }
        } else {
            Retransmission {
                sent_time: self.sent_time,
                last_sent_time: now,
                timeout: self.timeout,
                doublings: self.doublings,
            }
        }
    }
}

/// A peer whose earliest unacknowledged command has been outstanding for
/// the maximum is given up whatever else holds.
pub proof fn lemma_maximum_gives_up(
    policy: TimeoutPolicy,
    command: Retransmission,
    earliest: u32,
    now: u32,
)
    requires
        spec_time_difference(now, earliest) >= policy.maximum,
    ensures
        policy.spec_verdict(command, earliest, now) == Verdict::TimedOut,
{
}

/// Before the minimum has passed a peer is never given up, as long as the
/// minimum does not exceed the maximum.
pub proof fn lemma_minimum_protects(
    policy: TimeoutPolicy,
    command: Retransmission,
    earliest: u32,
    now: u32,
)
    requires
        policy.minimum <= policy.maximum,
        spec_time_difference(now, earliest) < policy.minimum,
    ensures
        policy.spec_verdict(command, earliest, now) != Verdict::TimedOut,
{
}

} // verus!
