//! Sample counts, sampling rates and the holders of sampled sources.
use vstd::prelude::*;

use crate::units::{Time, NANOS_PER_SECOND};

verus! {

/// Number of samples.
#[derive(Debug, Clone, Copy, PartialEq, Eq, Structural)]
pub struct SampleCount(pub usize);

impl SampleCount {
    pub fn new(samples: usize) -> (r: Self)
        ensures
            r.0 == samples,
    {
        Self(samples)
    }

    pub fn value(self) -> (r: usize)
        ensures
            r == self.0,
    {
        self.0
    }
}

/// Samples per second.
#[derive(Debug, Clone, Copy, PartialEq, Eq, Structural)]
pub struct SamplingRate(pub usize);

impl SamplingRate {
    pub fn new(value: usize) -> (r: Self)
        ensures
            r.0 == value,
    {
        Self(value)
    }

    pub fn value(self) -> (r: usize)
        ensures
            r == self.0,
    {
        self.0
    }

    /// Highest frequency the rate can carry, in whole hertz: half the rate.
    pub fn max_frequency(self) -> (r: u64)
        ensures
            r == self.0 / 2,
    {
        (self.0 / 2) as u64
    }

    /// Time that `amount` samples take, rounded down to a nanosecond.
    pub fn sample(self, amount: SampleCount) -> (r: Time)
        requires
            self.0 > 0,
            amount.0 * NANOS_PER_SECOND / self.0 as int <= u64::MAX,
        ensures
            r.0 == amount.0 * NANOS_PER_SECOND / self.0 as int,
    {
        let n: u128 = amount.0 as u128 * NANOS_PER_SECOND as u128;
        Time::new((n / self.0 as u128) as u64)
    }

    /// Time between two samples, rounded down to a nanosecond.
    pub fn increment(self) -> (r: Time)
        requires
            self.0 > 0,
        ensures
            r.0 == NANOS_PER_SECOND as int / self.0 as int,
    {
        let v: u128 = NANOS_PER_SECOND as u128 / self.0 as u128;
        proof {
            vstd::arithmetic::div_mod::lemma_div_is_ordered_by_denominator(
                NANOS_PER_SECOND as int,
                1,
                self.0 as int,
            );
        }
        Time::new(v as u64)
    }

    /// Samples that `t` takes, rounded up.
    pub fn samples_in(self, t: Time) -> (r: SampleCount)
        requires
            (self.0 * t.0 + NANOS_PER_SECOND - 1) / NANOS_PER_SECOND as int <= usize::MAX,
        ensures
            r.0 == (self.0 * t.0 + NANOS_PER_SECOND - 1) / NANOS_PER_SECOND as int,
    {
        let n: u128 = (self.0 as u128) * (t.0 as u128);
        let v: u128 = (n + (NANOS_PER_SECOND as u128 - 1)) / (NANOS_PER_SECOND as u128);
        proof {
            assert(n <= 0xffff_ffff_ffff_ffff * 0xffff_ffff_ffff_ffff) by (nonlinear_arith)
                requires
                    n == self.0 * t.0,
                    self.0 <= 0xffff_ffff_ffff_ffffu64,
                    t.0 <= 0xffff_ffff_ffff_ffffu64,
            ;
        }
        SampleCount(v as usize)
    }
}

/// Holds a wave that is sampled at a fixed rate.
pub struct WaveSampler<T>(T);

impl<T> WaveSampler<T> {
    pub fn new(t: T) -> (r: Self)
        ensures
            r.spec_inner() == t,
    {
        Self(t)
    }

    pub closed spec fn spec_inner(&self) -> T {
        self.0
    }

    pub fn inner_mut(&mut self) -> (r: &mut T)
        ensures
            *r == old(self).spec_inner(),
            final(self).spec_inner() == *final(r),
    {
        &mut self.0
    }
}

/// Holds a signal that is sampled at a fixed rate.
pub struct SignalSampler<T>(T);

impl<T> SignalSampler<T> {
    pub fn new(t: T) -> (r: Self)
        ensures
            r.spec_inner() == t,
    {
        Self(t)
    }

    pub closed spec fn spec_inner(&self) -> T {
        self.0
    }

    pub fn inner_mut(&mut self) -> (r: &mut T)
        ensures
            *r == old(self).spec_inner(),
            final(self).spec_inner() == *final(r),
    {
        &mut self.0
    }
}

} // verus!
