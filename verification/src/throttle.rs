//! The packet throttle: how large a share of the unreliable packets a peer
//! sends.
//!
//! The throttle value is a probability out of
//! [`PEER_PACKET_THROTTLE_SCALE`]. It rises and falls with the round-trip
//! times measured over an interval and never leaves `[0, limit]`.

use vstd::prelude::*;
use crate::consts::{
    PEER_DEFAULT_PACKET_THROTTLE, PEER_PACKET_THROTTLE_ACCELERATION,
    PEER_PACKET_THROTTLE_DECELERATION, PEER_PACKET_THROTTLE_INTERVAL, PEER_PACKET_THROTTLE_SCALE,
};

verus! {

/// The throttle state of one peer.
#[derive(Debug, Clone, Copy, PartialEq, Eq)]
pub struct Throttle {
    /// Current probability, out of the scale, that an unreliable packet is sent.
    pub value: u32,
    /// The value the throttle never rises above.
    pub limit: u32,
    /// Accumulator that decides which unreliable packets are sent.
    pub counter: u32,
    /// Amount by which the throttle rises.
    pub acceleration: u32,
    /// Amount by which the throttle falls.
    pub deceleration: u32,
    /// Length in milliseconds of a measurement interval.
    pub interval: u32,
    /// Time at which the current measurement interval began.
    pub epoch: u32,
}

/// What the throttle does at the end of a measurement interval.
#[derive(Debug, Clone, Copy, PartialEq, Eq)]
pub enum Adjustment {
    Raised,
    Lowered,
    Unchanged,
}

/// The smaller of two numbers.
pub open spec fn spec_min(a: int, b: int) -> int {
    if a <= b {
        a
    } else {
        b
    }
}

/// The larger of two numbers.
pub open spec fn spec_max(a: int, b: int) -> int {
    if a >= b {
        a
    } else {
        b
    }
}

/// What the throttle does when the lowest round-trip time of the interval
/// is `lowest` and the mean and variance stand at `mean` and `variance`.
pub open spec fn spec_adjustment(lowest: u32, mean: u32, variance: u32) -> Adjustment {
    if lowest < mean {
        Adjustment::Raised
    } else if lowest > mean + variance {
        Adjustment::Lowered
    } else {
        Adjustment::Unchanged
    }
}

impl Throttle {
    /// The invariant of the throttle: `value <= limit <= scale`, and the
    /// counter within the scale.
    pub open spec fn wf(self) -> bool {
        &&& self.value <= self.limit
        &&& self.limit <= PEER_PACKET_THROTTLE_SCALE
        &&& self.counter <= PEER_PACKET_THROTTLE_SCALE
    }

    /// The throttle a fresh peer starts with.
    pub open spec fn spec_new() -> Throttle {
        Throttle {
            value: PEER_DEFAULT_PACKET_THROTTLE,
            limit: PEER_PACKET_THROTTLE_SCALE,
            counter: PEER_PACKET_THROTTLE_SCALE,
            acceleration: PEER_PACKET_THROTTLE_ACCELERATION,
            deceleration: PEER_PACKET_THROTTLE_DECELERATION,
            interval: PEER_PACKET_THROTTLE_INTERVAL,
            epoch: 0,
        }
    }

    /// The throttle after it rose by its acceleration, held at the limit.
    pub open spec fn spec_raised(self) -> Throttle {
        Throttle {
            value: spec_min(self.value + self.acceleration, self.limit as int) as u32,
            ..self
        }
    }

    /// The throttle after it fell by its deceleration, held at zero.
    pub open spec fn spec_lowered(self) -> Throttle {
        Throttle { value: spec_max(self.value - self.deceleration, 0) as u32, ..self }
    }

    /// The throttle after the adjustment at the end of an interval.
    pub open spec fn spec_adjusted(self, lowest: u32, mean: u32, variance: u32) -> Throttle {
        match spec_adjustment(lowest, mean, variance) {
            Adjustment::Raised => self.spec_raised(),
            Adjustment::Lowered => self.spec_lowered(),
            Adjustment::Unchanged => self,
        }
    }

    /// Whether the next unreliable packet is sent: the counter, raised by
    /// the throttle value, exceeds the scale.
    pub open spec fn spec_lets_through(self) -> bool {
        self.counter + self.value > PEER_PACKET_THROTTLE_SCALE
    }

    /// The throttle after it decided on one unreliable packet: the counter
    /// is raised by the throttle value and, where the packet is sent, wraps
    /// by the scale.
    pub open spec fn spec_after_packet(self) -> Throttle {
        if self.spec_lets_through() {
            Throttle {
                counter: (self.counter + self.value - PEER_PACKET_THROTTLE_SCALE) as u32,
                ..self
            }
        } else {
            Throttle { counter: (self.counter + self.value) as u32, ..self }
        }
    }

    /// The throttle a fresh peer starts with.
    pub fn new() -> (t: Throttle)
        ensures
            t == Throttle::spec_new(),
            t.wf(),
    {
        Throttle {
            value: PEER_DEFAULT_PACKET_THROTTLE,
            limit: PEER_PACKET_THROTTLE_SCALE,
            counter: PEER_PACKET_THROTTLE_SCALE,
            acceleration: PEER_PACKET_THROTTLE_ACCELERATION,
            deceleration: PEER_PACKET_THROTTLE_DECELERATION,
            interval: PEER_PACKET_THROTTLE_INTERVAL,
            epoch: 0,
        }
    }

    /// Sets the measurement interval and the two rates; the rest stays.
    pub fn configure(&mut self, interval: u32, acceleration: u32, deceleration: u32)
        ensures
            *final(self) == (Throttle { interval, acceleration, deceleration, ..*old(self) }),
            old(self).wf() ==> final(self).wf(),
    {
        self.interval = interval;
        self.acceleration = acceleration;
        self.deceleration = deceleration;
    }

    /// Sets the limit, held at the scale, and brings the value under it.
    pub fn set_limit(&mut self, limit: u32)
        ensures
            final(self).limit == spec_min(limit as int, PEER_PACKET_THROTTLE_SCALE as int),
            final(self).value == spec_min(old(self).value as int, final(self).limit as int),
            *final(self) == (Throttle {
                limit: final(self).limit,
                value: final(self).value,
                ..*old(self)
            }),
            old(self).counter <= PEER_PACKET_THROTTLE_SCALE ==> final(self).wf(),
    {
        self.limit = if limit <= PEER_PACKET_THROTTLE_SCALE {
            limit
        } else {
            PEER_PACKET_THROTTLE_SCALE
        };
        if self.value > self.limit {
            self.value = self.limit;
        }
    }

    /// Adjusts the throttle at the end of a measurement interval: it rises
    /// where the lowest round-trip time of the interval lies under the
    /// mean, falls where it lies above the mean by more than the variance,
    /// and stays otherwise. Returns what it did.
    pub fn adjust(&mut self, lowest: u32, mean: u32, variance: u32) -> (done: Adjustment)
        ensures
            done == spec_adjustment(lowest, mean, variance),
            *final(self) == old(self).spec_adjusted(lowest, mean, variance),
            old(self).wf() ==> final(self).wf(),
            old(self).limit <= PEER_PACKET_THROTTLE_SCALE ==> final(self).value <= spec_max(
                old(self).value as int,
                old(self).limit as int,
            ),
    {
        if lowest < mean {
            let raised = self.value.saturating_add(self.acceleration);
            self.value = if raised <= self.limit {
                raised
            } else {
                self.limit
            };
            Adjustment::Raised
        } else if lowest - mean > variance {
            self.value = self.value.saturating_sub(self.deceleration);
            Adjustment::Lowered
        } else {
            Adjustment::Unchanged
        }
    }

    /// Decides whether the next unreliable packet is sent and moves the
    /// counter on.
    pub fn gate(&mut self) -> (sent: bool)
        requires
            old(self).wf(),
        ensures
            sent == old(self).spec_lets_through(),
            *final(self) == old(self).spec_after_packet(),
            final(self).wf(),
    {
        let raised = self.counter + self.value;
        if raised > PEER_PACKET_THROTTLE_SCALE {
            self.counter = raised - PEER_PACKET_THROTTLE_SCALE;
            true
        } else {
            self.counter = raised;
            false
        }
    }
}

/// A throttle at zero sends no unreliable packet, and stays as it is.
pub proof fn lemma_closed_throttle_drops(t: Throttle)
    requires
        t.wf(),
        t.value == 0,
    ensures
        !t.spec_lets_through(),
        t.spec_after_packet() == t,
{
}

/// A throttle at the scale whose counter is not zero sends every unreliable
/// packet, and stays as it is.
pub proof fn lemma_open_throttle_sends(t: Throttle)
    requires
        t.wf(),
        t.value == PEER_PACKET_THROTTLE_SCALE,
        t.counter > 0,
    ensures
        t.spec_lets_through(),
        t.spec_after_packet() == t,
{
}

/// The counter of a throttle that has started from a fresh one never falls
/// to zero: deciding on a packet keeps a positive counter positive.
pub proof fn lemma_counter_stays_positive(t: Throttle)
    requires
        t.wf(),
        t.counter > 0,
    ensures
        t.spec_after_packet().counter > 0,
{
}

/// The throttle after it has decided on `count` unreliable packets.
pub open spec fn spec_after_packets(t: Throttle, count: nat) -> Throttle
    decreases count,
{
    if count == 0 {
        t
    } else {
        spec_after_packets(t.spec_after_packet(), (count - 1) as nat)
    }
}

/// Number of the next `count` unreliable packets that the throttle lets
/// through.
pub open spec fn spec_let_through(t: Throttle, count: nat) -> nat
    decreases count,
{
    if count == 0 {
        0
    } else {
        spec_let_through(t.spec_after_packet(), (count - 1) as nat) + if t.spec_lets_through() {
            1nat
        } else {
            0nat
        }
    }
}

/// What the counter of the throttle keeps account of: with every packet it
/// grows by the throttle value, and it gives up the scale for every packet
/// that is let through.
proof fn lemma_counter_accounts(t: Throttle, count: nat)
    requires
        t.wf(),
        t.counter > 0,
    ensures
        spec_after_packets(t, count).counter + PEER_PACKET_THROTTLE_SCALE * spec_let_through(
            t,
            count,
        ) == t.counter + count * t.value,
        0 < spec_after_packets(t, count).counter <= PEER_PACKET_THROTTLE_SCALE,
        spec_after_packets(t, count).value == t.value,
    decreases count,
{
    if count > 0 {
        lemma_counter_accounts(t.spec_after_packet(), (count - 1) as nat);
        assert(count * t.value == (count - 1) * t.value + t.value) by (nonlinear_arith);
    }
}

/// The throttle value is the share of the unreliable packets that is sent:
/// of every run of as many packets as the scale counts, the throttle lets
/// through as many as its value says, and stands then as it stood before.
pub proof fn lemma_throttle_share(t: Throttle)
    requires
        t.wf(),
        t.counter > 0,
    ensures
        spec_let_through(t, PEER_PACKET_THROTTLE_SCALE as nat) == t.value,
        spec_after_packets(t, PEER_PACKET_THROTTLE_SCALE as nat) == t,
{
    lemma_counter_accounts(t, PEER_PACKET_THROTTLE_SCALE as nat);
    lemma_rest_stays(t, PEER_PACKET_THROTTLE_SCALE as nat);
}

/// Deciding on packets changes nothing of the throttle but its counter.
proof fn lemma_rest_stays(t: Throttle, count: nat)
    ensures
        spec_after_packets(t, count) == (Throttle {
            counter: spec_after_packets(t, count).counter,
            ..t
        }),
    decreases count,
{
    if count > 0 {
        lemma_rest_stays(t.spec_after_packet(), (count - 1) as nat);
    }
}

} // verus!
