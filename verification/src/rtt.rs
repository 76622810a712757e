//! The round-trip-time estimator.
//!
//! The mean is an exponentially weighted moving average of the samples with
//! weight 1/8, the variance one of the distance between sample and mean with
//! weight 1/4. The first sample of a session sets the mean.

use vstd::prelude::*;
use crate::consts::PEER_DEFAULT_ROUND_TRIP_TIME;

verus! {

/// The round-trip-time state of one peer.
#[derive(Debug, Clone, Copy, PartialEq, Eq)]
pub struct RoundTripTime {
    /// Mean round-trip time in milliseconds.
    pub mean: u32,
    /// Mean distance between the samples and the mean.
    pub variance: u32,
    /// Lowest sample of the current measurement interval; `u32::MAX` while
    /// the interval has none.
    pub lowest: u32,
    /// The last sample.
    pub last: u32,
    /// Whether a sample has been taken since the estimator was made.
    pub measured: bool,
}

/// The distance between two numbers.
pub open spec fn spec_distance(a: int, b: int) -> int {
    if a >= b {
        a - b
    } else {
        b - a
    }
}

/// The mean after a sample: an eighth of the way from the old mean to the
/// sample.
pub open spec fn spec_next_mean(mean: u32, sample: u32) -> u32 {
    if sample >= mean {
        (mean + (sample - mean) / 8) as u32
    } else {
        (mean - (mean - sample) / 8) as u32
    }
}

/// The variance after a sample: three quarters of the old variance and a
/// quarter of the sample's distance from the old mean.
pub open spec fn spec_next_variance(variance: u32, mean: u32, sample: u32) -> u32 {
    let raised = variance - variance / 4 + spec_distance(sample as int, mean as int) / 4;
    if raised > u32::MAX {
        u32::MAX
    } else {
        raised as u32
    }
}

impl RoundTripTime {
    /// The estimator of a fresh peer, before any sample.
    pub open spec fn spec_new() -> RoundTripTime {
        RoundTripTime {
            mean: PEER_DEFAULT_ROUND_TRIP_TIME,
            variance: 0,
            lowest: u32::MAX,
            last: 0,
            measured: false,
        }
    }

    /// The estimator after the given sample.
    pub open spec fn spec_sampled(self, sample: u32) -> RoundTripTime {
        if self.measured {
            RoundTripTime {
                mean: spec_next_mean(self.mean, sample),
                variance: spec_next_variance(self.variance, self.mean, sample),
                lowest: if sample < self.lowest {
                    sample
                } else {
                    self.lowest
                },
                last: sample,
                measured: true,
            }
        } else {
            RoundTripTime {
                mean: sample,
                variance: ((sample + 1) / 2) as u32,
                lowest: sample,
                last: sample,
                measured: true,
            }
        }
    }

    /// The estimator after `count` samples of the same value.
    pub open spec fn spec_sampled_times(self, sample: u32, count: nat) -> RoundTripTime
        decreases count,
    {
        if count == 0 {
            self
        } else {
            self.spec_sampled(sample).spec_sampled_times(sample, (count - 1) as nat)
        }
    }

    /// The estimator at the start of a new measurement interval: the lowest
    /// sample is forgotten.
    pub open spec fn spec_next_interval(self) -> RoundTripTime {
        RoundTripTime { lowest: u32::MAX, ..self }
    }

    /// The retransmission timeout that a command first sent now starts
    /// with: the mean and four times the variance.
    pub open spec fn spec_timeout(self) -> u32 {
        let sum = self.mean + 4 * self.variance;
        if sum > u32::MAX {
            u32::MAX
        } else {
            sum as u32
        }
    }

    /// The estimator of a fresh peer, before any sample.
    pub fn new() -> (r: RoundTripTime)
        ensures
            r == RoundTripTime::spec_new(),
    {
        RoundTripTime {
            mean: PEER_DEFAULT_ROUND_TRIP_TIME,
            variance: 0,
            lowest: u32::MAX,
            last: 0,
            measured: false,
        }
    }

    /// Takes one sample into the estimator.
    pub fn sample(&mut self, sample: u32)
        ensures
            *final(self) == old(self).spec_sampled(sample),
    {
        if self.measured {
            let kept = self.variance - self.variance / 4;
            if sample >= self.mean {
                let distance = sample - self.mean;
                self.variance = kept.saturating_add(distance / 4);
                self.mean = self.mean + distance / 8;
            } else {
                let distance = self.mean - sample;
                self.variance = kept.saturating_add(distance / 4);
                self.mean = self.mean - distance / 8;
            }
            if sample < self.lowest {
                self.lowest = sample;
            }
        } else {
            self.mean = sample;
            self.variance = ((sample as u64 + 1) / 2) as u32;
            self.lowest = sample;
            self.measured = true;
        }
        self.last = sample;
    }

    /// Starts a new measurement interval.
    pub fn next_interval(&mut self)
        ensures
            *final(self) == old(self).spec_next_interval(),
    {
        self.lowest = u32::MAX;
    }

    /// The retransmission timeout that a command first sent now starts with.
    pub fn timeout(&self) -> (t: u32)
        ensures
            t == self.spec_timeout(),
    {
        let spread: u32 = if self.variance > u32::MAX / 4 {
            u32::MAX
        } else {
            4 * self.variance
        };
        self.mean.saturating_add(spread)
    }
}

/// A sample never moves the mean away from itself, and moves it closer
/// whenever the two are eight or more apart.
pub proof fn lemma_mean_approaches_sample(mean: u32, sample: u32)
    ensures
        spec_distance(spec_next_mean(mean, sample) as int, sample as int) <= spec_distance(
            mean as int,
            sample as int,
        ),
        spec_distance(mean as int, sample as int) >= 8 ==> spec_distance(
            spec_next_mean(mean, sample) as int,
            sample as int,
        ) < spec_distance(mean as int, sample as int),
        spec_distance(spec_next_mean(mean, sample) as int, sample as int) == spec_distance(
            mean as int,
            sample as int,
        ) - spec_distance(mean as int, sample as int) / 8,
{
}

/// Under a constant round-trip time the mean equals that time after the
/// first acknowledgement of a session and after every later one; so it lies
/// within a tenth of it after at most eight.
pub proof fn lemma_constant_latency_converges(start: RoundTripTime, sample: u32, count: nat)
    requires
        !start.measured,
        count >= 1,
    ensures
        start.spec_sampled_times(sample, count).mean == sample,
        start.spec_sampled_times(sample, count).measured,
        10 * spec_distance(
            start.spec_sampled_times(sample, count).mean as int,
            sample as int,
        ) <= sample,
    decreases count,
{
    lemma_steady_mean(start.spec_sampled(sample), sample, (count - 1) as nat);
}

/// An estimator whose mean equals the constant sample keeps that mean.
proof fn lemma_steady_mean(r: RoundTripTime, sample: u32, count: nat)
    requires
        r.measured,
        r.mean == sample,
    ensures
        r.spec_sampled_times(sample, count).mean == sample,
        r.spec_sampled_times(sample, count).measured,
    decreases count,
{
    if count > 0 {
        lemma_steady_mean(r.spec_sampled(sample), sample, (count - 1) as nat);
    }
}

/// Under a constant round-trip time the variance never grows once the mean
/// has reached that time: each acknowledgement takes a quarter off.
pub proof fn lemma_steady_variance_decays(r: RoundTripTime, sample: u32)
    requires
        r.measured,
        r.mean == sample,
    ensures
        r.spec_sampled(sample).variance == r.variance - r.variance / 4,
{
}

} // verus!
