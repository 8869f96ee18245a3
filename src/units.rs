//! Strongly typed scalars. Amplitudes and proportions are fixed-point numbers
//! with `UNIT` standing for `1.0`; times are whole nanoseconds and
//! frequencies whole hertz.
use vstd::prelude::*;

verus! {

/// The fixed-point representation of `1.0`.
pub const UNIT: i64 = 65536;

/// Nanoseconds in a second.
pub const NANOS_PER_SECOND: u64 = 1_000_000_000;

/// A span of time in nanoseconds.
#[derive(Debug, Clone, Copy, PartialEq, Eq, Structural)]
pub struct Time(pub u64);

impl Time {
    pub fn new(nanos: u64) -> (r: Self)
        ensures
            r.0 == nanos,
    {
        Self(nanos)
    }

    pub fn value(self) -> (r: u64)
        ensures
            r == self.0,
    {
        self.0
    }

    pub fn zero() -> (r: Self)
        ensures
            r.0 == 0,
    {
        Self(0)
    }

    /// `self` scaled by a proportion, rounded down.
    pub fn scale(self, p: Proportion) -> (r: Self)
        requires
            0 <= p.0,
            self.0 * p.0 / UNIT as int <= u64::MAX,
        ensures
            r.0 == self.0 * p.0 / UNIT as int,
    {
        let v: u128 = (self.0 as u128) * (p.0 as u128) / (UNIT as u128);
        Self(v as u64)
    }
}

/// A frequency in whole hertz.
#[derive(Debug, Clone, Copy, PartialEq, Eq, Structural)]
pub struct Frequency(pub u64);

impl Frequency {
    pub fn new(hertz: u64) -> (r: Self)
        ensures
            r.0 == hertz,
    {
        Self(hertz)
    }

    pub fn value(self) -> (r: u64)
        ensures
            r == self.0,
    {
        self.0
    }

    /// One period, rounded down to a nanosecond.
    pub fn cycle_time(self) -> (r: Time)
        requires
            self.0 > 0,
        ensures
            r.0 == NANOS_PER_SECOND / self.0,
    {
        Time(NANOS_PER_SECOND / self.0)
    }

    /// Half of `self` in steps of `step`, rounded to the nearest step (halves up).
    pub fn bandwidth_steps(self, step: Frequency) -> (r: u64)
        requires
            step.0 > 0,
        ensures
            r == (self.0 + step.0) / (2 * step.0 as int),
    {
        let v: u128 = (self.0 as u128 + step.0 as u128) / (2 * step.0 as u128);
        proof {
            vstd::arithmetic::div_mod::lemma_div_is_ordered(
                (self.0 + step.0) as int,
                2 * (u64::MAX as int),
                2 * step.0 as int,
            );
            assert(2 * (u64::MAX as int) / (2 * step.0 as int) <= u64::MAX) by {
                vstd::arithmetic::div_mod::lemma_div_is_ordered_by_denominator(
                    2 * (u64::MAX as int),
                    2,
                    2 * step.0 as int,
                );
            }
        }
        v as u64
    }
}

/// A signal level, in units of `1 / UNIT`.
#[derive(Debug, Clone, Copy, PartialEq, Eq, Structural)]
pub struct Amplitude(pub i32);

impl Amplitude {
    pub fn new(raw: i32) -> (r: Self)
        ensures
            r.0 == raw,
    {
        Self(raw)
    }

    pub fn value(self) -> (r: i32)
        ensures
            r == self.0,
    {
        self.0
    }

    pub fn zero() -> (r: Self)
        ensures
            r.0 == 0,
    {
        Self(0)
    }

    pub fn abs(self) -> (r: Self)
        requires
            self.0 > i32::MIN,
        ensures
            r.0 == if self.0 < 0 {
                -self.0
            } else {
                self.0 as int
            },
    {
        if self.0 < 0 {
            Self(-self.0)
        } else {
            self
        }
    }
}

/// `a / b` rounded toward zero.
pub open spec fn quotient_toward_zero(a: int, b: int) -> int {
    let q = (if a < 0 {
        -a
    } else {
        a
    }) / (if b < 0 {
        -b
    } else {
        b
    });
    if (a < 0) != (b < 0) {
        -q
    } else {
        q
    }
}

impl Amplitude {
    /// `self / rhs` as a proportion, rounded toward zero; a zero `rhs` counts
    /// as the smallest positive amplitude.
    pub fn relative_to(self, rhs: Amplitude) -> (r: Proportion)
        ensures
            r.0 == quotient_toward_zero(
                self.0 * UNIT,
                if rhs.0 == 0 {
                    1
                } else {
                    rhs.0 as int
                },
            ),
    {
        let a: i64 = self.0 as i64 * UNIT;
        let b: i64 = if rhs.0 == 0 {
            1
        } else {
            rhs.0 as i64
        };
        let ua: u64 = if a < 0 {
            (-a) as u64
        } else {
            a as u64
        };
        let ub: u64 = if b < 0 {
            (-b) as u64
        } else {
            b as u64
        };
        let q: u64 = ua / ub;
        proof {
            vstd::arithmetic::div_mod::lemma_div_is_ordered_by_denominator(ua as int, 1, ub as int);
        }
        if (a < 0) != (b < 0) {
            Proportion(-(q as i64))
        } else {
            Proportion(q as i64)
        }
    }
}

/// A dimensionless ratio, in units of `1 / UNIT`.
#[derive(Debug, Clone, Copy, PartialEq, Eq, Structural)]
pub struct Proportion(pub i64);

impl Proportion {
    pub fn new(raw: i64) -> (r: Self)
        ensures
            r.0 == raw,
    {
        Self(raw)
    }

    pub fn value(self) -> (r: i64)
        ensures
            r == self.0,
    {
        self.0
    }

    /// `self * n`, truncated to a whole number; negative results give zero.
    pub fn scale_usize(self, n: usize) -> (r: usize)
        requires
            self.0 <= 0 || self.0 * n / UNIT as int <= usize::MAX,
        ensures
            r == if self.0 <= 0 {
                0
            } else {
                self.0 * n / UNIT as int
            },
    {
        if self.0 <= 0 {
            0
        } else {
            let v: u128 = (self.0 as u128) * (n as u128) / (UNIT as u128);
            v as usize
        }
    }

    pub fn neg(self) -> (r: Self)
        requires
            self.0 > i64::MIN,
        ensures
            r.0 == -self.0,
    {
        Self(-self.0)
    }
}

} // verus!
