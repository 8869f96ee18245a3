//! On-off keyed NRZI envelope: the level flips on each edge symbol of a frame,
//! with a linear slope of a configured width between the two amplitudes.
use vstd::prelude::*;

use crate::encodings::enc::nrzi::{Parameters, NRZI as Encoder};
use crate::encodings::nrzi::Value;
use crate::signals::{BinaryLevel, Error};
use crate::units::{Amplitude, Frequency, Proportion, Time, UNIT};

pub mod utils;

verus! {

/// Whether symbol `v`, sent at `level`, flips the level.
pub open spec fn flips(level: BinaryLevel, v: Value) -> bool {
    match v {
        Value::StartOfFrame(_) => true,
        Value::StuffBit => true,
        Value::Bit(b) => b,
        Value::EndOfFrame(k) => k == 0 || (k == 1 && level == BinaryLevel::High),
        Value::Complete => false,
    }
}

/// The amplitude `progress` into a slope of `width` from `from` to `to`,
/// rounded toward `from`.
pub open spec fn slope(from: int, to: int, progress: int, width: int) -> int {
    let p = if progress < width {
        progress
    } else {
        width
    };
    if to >= from {
        from + (to - from) * p / width
    } else {
        from - (from - to) * p / width
    }
}

/// Timing and levels of the envelope.
pub struct NRZIConsts {
    transition_width: Time,
    baud_length: Time,
    highlow: (Amplitude, Amplitude),
}

impl NRZIConsts {
    pub closed spec fn spec_transition_width(&self) -> u64 {
        self.transition_width.0
    }

    pub closed spec fn spec_baud_length(&self) -> u64 {
        self.baud_length.0
    }

    /// The high and the low amplitude.
    pub closed spec fn spec_highlow(&self) -> (i32, i32) {
        (self.highlow.0.0, self.highlow.1.0)
    }

    /// Slopes are at least a nanosecond long and fit in a symbol.
    pub open spec fn wf(&self) -> bool {
        0 < self.spec_transition_width() <= self.spec_baud_length() < 0x8000_0000_0000_0000
    }

    /// Symbols last one period of `baudrate`; slopes take `transition_width`
    /// of a symbol.
    pub fn new(baudrate: Frequency, transition_width: Proportion, highlow: (Amplitude, Amplitude)) -> (r: Self)
        requires
            baudrate.0 > 0,
            0 <= transition_width.0 <= UNIT,
        ensures
            r.spec_baud_length() == 1_000_000_000int / baudrate.0 as int,
            r.spec_transition_width() == r.spec_baud_length() * transition_width.0 / UNIT as int,
            r.spec_highlow() == (highlow.0.0, highlow.1.0),
    {
        let baud_length = baudrate.cycle_time();
        proof {
            vstd::arithmetic::mul::lemma_mul_inequality(
                transition_width.0 as int,
                UNIT as int,
                baud_length.0 as int,
            );
            vstd::arithmetic::div_mod::lemma_div_is_ordered(
                baud_length.0 * transition_width.0,
                baud_length.0 * UNIT,
                UNIT as int,
            );
            vstd::arithmetic::div_mod::lemma_div_multiples_vanish(baud_length.0 as int, UNIT as int);
        }
        Self {
            baud_length,
            transition_width: baud_length.scale(transition_width),
            highlow,
        }
    }
}

struct NRZIState {
    nrzi: Encoder,
    current_transition_progress: Time,
    current_level: BinaryLevel,
}

/// Envelope of one encoded frame, sampled by advancing through time.
pub struct NRZI {
    c: NRZIConsts,
    m: NRZIState,
}

impl NRZI {
    pub closed spec fn spec_consts(&self) -> &NRZIConsts {
        &self.c
    }

    /// Level before the current symbol's edge.
    pub closed spec fn spec_level(&self) -> BinaryLevel {
        self.m.current_level
    }

    /// Time since the current symbol started.
    pub closed spec fn spec_progress(&self) -> u64 {
        self.m.current_transition_progress.0
    }

    /// The symbols from the current one on.
    pub closed spec fn spec_remaining(&self) -> Seq<Value> {
        self.m.nrzi.remaining()
    }

    pub closed spec fn wf(&self) -> bool {
        &&& self.c.wf()
        &&& self.m.nrzi.wf()
        &&& self.m.current_transition_progress.0 < self.c.baud_length.0
    }

    /// The amplitude of a level.
    pub open spec fn level_amplitude(&self, level: BinaryLevel) -> int {
        match level {
            BinaryLevel::Low => self.spec_consts().spec_highlow().1 as int,
            BinaryLevel::High => self.spec_consts().spec_highlow().0 as int,
        }
    }

    /// The amplitude now: the level's, or a point on the slope to the other
    /// level while an edge symbol is sent.
    pub open spec fn spec_current_value(&self) -> int {
        if flips(self.spec_level(), self.spec_remaining()[0]) {
            slope(
                self.level_amplitude(self.spec_level()),
                self.level_amplitude(self.spec_level().spec_neg()),
                self.spec_progress() as int,
                self.spec_consts().spec_transition_width() as int,
            )
        } else {
            self.level_amplitude(self.spec_level())
        }
    }

    pub fn new(c: NRZIConsts, nrzi_params: Parameters) -> (r: Self)
        requires
            c.wf(),
            nrzi_params.wf(),
            nrzi_params.spec_payload().len() * 8 < usize::MAX,
        ensures
            r.wf(),
            r.spec_consts() == c,
            r.spec_level() == BinaryLevel::Low,
            r.spec_progress() == 0,
            r.spec_remaining() == crate::encodings::enc::nrzi::frame(
                nrzi_params.spec_payload(),
                nrzi_params.spec_stuff_bit_after() as nat,
                nrzi_params.spec_preamble() as nat,
            ),
    {
        Self {
            c,
            m: NRZIState {
                nrzi: Encoder::new(nrzi_params),
                current_transition_progress: Time::zero(),
                current_level: BinaryLevel::Low,
            },
        }
    }

    fn level_to_amplitude(&self, level: BinaryLevel) -> (r: i32)
        ensures
            r == self.level_amplitude(level),
    {
        match level {
            BinaryLevel::Low => self.c.highlow.1.0,
            BinaryLevel::High => self.c.highlow.0.0,
        }
    }

    fn transition(&self) -> (r: bool)
        requires
            self.wf(),
        ensures
            r == flips(self.spec_level(), self.spec_remaining()[0]),
    {
        match self.m.nrzi.current() {
            Value::StartOfFrame(_) | Value::StuffBit | Value::Bit(true) => true,
            Value::EndOfFrame(eofidx) => match (self.m.current_level, eofidx) {
                (BinaryLevel::Low, 0) => true,
                (BinaryLevel::Low, _) => false,
                (BinaryLevel::High, 0) => true,
                (BinaryLevel::High, 1) => true,
                (BinaryLevel::High, _) => false,
            },
            _ => false,
        }
    }

    fn calculate_transition_slope(&self) -> (r: i32)
        requires
            self.wf(),
        ensures
            r == slope(
                self.level_amplitude(self.spec_level()),
                self.level_amplitude(self.spec_level().spec_neg()),
                self.spec_progress() as int,
                self.spec_consts().spec_transition_width() as int,
            ),
    {
        let width = self.c.transition_width.0;
        let progress = self.m.current_transition_progress.0;
        let p = if progress < width {
            progress
        } else {
            width
        };
        let from = self.level_to_amplitude(self.m.current_level);
        let to = self.level_to_amplitude(self.m.current_level.neg());
        if to >= from {
            let delta: u128 = (to as i64 - from as i64) as u128;
            assert(delta * p <= 0x1_0000_0000 * 0x1_0000_0000_0000_0000) by (nonlinear_arith)
                requires
                    delta <= 0x1_0000_0000,
                    p <= 0x1_0000_0000_0000_0000,
            ;
            let step: u128 = delta * (p as u128) / (width as u128);
            proof {
                lemma_part_of(delta as int, p as int, width as int);
            }
            (from as i64 + step as i64) as i32
        } else {
            let delta: u128 = (from as i64 - to as i64) as u128;
            assert(delta * p <= 0x1_0000_0000 * 0x1_0000_0000_0000_0000) by (nonlinear_arith)
                requires
                    delta <= 0x1_0000_0000,
                    p <= 0x1_0000_0000_0000_0000,
            ;
            let step: u128 = delta * (p as u128) / (width as u128);
            proof {
                lemma_part_of(delta as int, p as int, width as int);
            }
            (from as i64 - step as i64) as i32
        }
    }

    /// The amplitude now.
    fn current_value(&self) -> (r: i32)
        requires
            self.wf(),
        ensures
            r == self.spec_current_value(),
    {
        if !self.transition() {
            self.level_to_amplitude(self.m.current_level)
        } else {
            self.calculate_transition_slope()
        }
    }

    fn advance(&mut self, dt: Time) -> (r: Result<(), Error>)
        requires
            old(self).wf(),
            dt.0 <= old(self).spec_consts().spec_transition_width(),
        ensures
            final(self).wf(),
            final(self).spec_consts() == old(self).spec_consts(),
            ({
                let p = old(self).spec_progress() + dt.0;
                let wrapped = p >= old(self).spec_consts().spec_baud_length();
                &&& final(self).spec_progress() == if wrapped {
                    p - old(self).spec_consts().spec_baud_length()
                } else {
                    p
                }
                &&& final(self).spec_level() == if wrapped && flips(
                    old(self).spec_level(),
                    old(self).spec_remaining()[0],
                ) {
                    old(self).spec_level().spec_neg()
                } else {
                    old(self).spec_level()
                }
                &&& final(self).spec_remaining() == if wrapped && old(self).spec_remaining().len()
                    > 1 {
                    old(self).spec_remaining().drop_first()
                } else {
                    old(self).spec_remaining()
                }
            }),
            r == if final(self).spec_remaining()[0] is Complete {
                Err::<(), Error>(Error::Finished)
            } else {
                Ok::<(), Error>(())
            },
    {
        self.m.current_transition_progress = Time(self.m.current_transition_progress.0 + dt.0);
        if self.m.current_transition_progress.0 >= self.c.baud_length.0 {
            self.m.current_transition_progress = Time(
                self.m.current_transition_progress.0 - self.c.baud_length.0,
            );
            if self.transition() {
                self.m.current_level = self.m.current_level.neg();
            }
            self.m.nrzi.advance();
        }
        if let Value::Complete = self.m.nrzi.current() {
            Err(Error::Finished)
        } else {
            Ok(())
        }
    }

    /// The amplitude now, then moves on by `dt`. Fails with `Undersampled`
    /// (and changes nothing) when `dt` is longer than a slope, and with
    /// `Finished` once the frame is over.
    pub fn advance_with(&mut self, dt: Time) -> (r: Result<Amplitude, Error>)
        requires
            old(self).wf(),
        ensures
            final(self).wf(),
            final(self).spec_consts() == old(self).spec_consts(),
            dt.0 > old(self).spec_consts().spec_transition_width() ==> r == Err::<Amplitude, Error>(
                Error::Undersampled,
            ) && *final(self) == *old(self),
            dt.0 <= old(self).spec_consts().spec_transition_width() ==> ({
                let p = old(self).spec_progress() + dt.0;
                let wrapped = p >= old(self).spec_consts().spec_baud_length();
                &&& final(self).spec_progress() == if wrapped {
                    p - old(self).spec_consts().spec_baud_length()
                } else {
                    p
                }
                &&& final(self).spec_level() == if wrapped && flips(
                    old(self).spec_level(),
                    old(self).spec_remaining()[0],
                ) {
                    old(self).spec_level().spec_neg()
                } else {
                    old(self).spec_level()
                }
                &&& final(self).spec_remaining() == if wrapped && old(self).spec_remaining().len()
                    > 1 {
                    old(self).spec_remaining().drop_first()
                } else {
                    old(self).spec_remaining()
                }
                &&& r == if final(self).spec_remaining()[0] is Complete {
                    Err::<Amplitude, Error>(Error::Finished)
                } else {
                    Ok::<Amplitude, Error>(Amplitude(old(self).spec_current_value() as i32))
                }
            }),
            r matches Ok(a) ==> {
                let (high, low) = old(self).spec_consts().spec_highlow();
                &&& (high <= low ==> high <= a.0 <= low)
                &&& (low <= high ==> low <= a.0 <= high)
            },
    {
        if dt.0 > self.c.transition_width.0 {
            return Err(Error::Undersampled);
        }
        let result = self.current_value();
        proof {
            self.lemma_value_between();
        }
        match self.advance(dt) {
            Ok(()) => Ok(Amplitude(result)),
            Err(e) => Err(e),
        }
    }

    /// The amplitude lies between the two levels' amplitudes.
    proof fn lemma_value_between(&self)
        requires
            self.wf(),
        ensures
            ({
                let (high, low) = self.spec_consts().spec_highlow();
                let v = self.spec_current_value();
                &&& (high <= low ==> high <= v <= low)
                &&& (low <= high ==> low <= v <= high)
            }),
    {
        let from = self.level_amplitude(self.spec_level());
        let to = self.level_amplitude(self.spec_level().spec_neg());
        let w = self.spec_consts().spec_transition_width() as int;
        let pr = self.spec_progress() as int;
        let p = if pr < w {
            pr
        } else {
            w
        };
        if to >= from {
            lemma_part_of(to - from, p, w);
        } else {
            lemma_part_of(from - to, p, w);
        }
    }
}

/// `delta * p / width` lies in `[0, delta]` when `p` lies in `[0, width]`.
proof fn lemma_part_of(delta: int, p: int, width: int)
    requires
        delta >= 0,
        0 <= p <= width,
        width > 0,
    ensures
        0 <= delta * p / width <= delta,
{
    vstd::arithmetic::mul::lemma_mul_inequality(p, width, delta);
    vstd::arithmetic::mul::lemma_mul_nonnegative(delta, p);
    vstd::arithmetic::div_mod::lemma_div_is_ordered(delta * p, delta * width, width);
    vstd::arithmetic::div_mod::lemma_div_multiples_vanish(delta, width);
    vstd::arithmetic::div_mod::lemma_div_pos_is_pos(delta * p, width);
}

} // verus!
