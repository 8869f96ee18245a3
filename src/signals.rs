//! Amplitude modulated signals: transitions, shaping and decoding.
use vstd::prelude::*;

use crate::signals::am::Transition;

pub mod am;
pub mod dec;
pub mod enc;
pub mod proc;

verus! {

/// Why a signal could not produce a sample.
#[derive(Debug, Clone, Copy, PartialEq, Eq, Structural)]
pub enum Error {
    /// The time step is longer than a transition.
    Undersampled,
    /// The signal has ended.
    Finished,
}

/// Level of an on-off keyed envelope.
#[derive(Debug, Clone, Copy, PartialEq, Eq, Structural)]
pub enum BinaryLevel {
    Low,
    High,
}

impl BinaryLevel {
    /// The other level.
    pub open spec fn spec_neg(self) -> BinaryLevel {
        match self {
            BinaryLevel::High => BinaryLevel::Low,
            BinaryLevel::Low => BinaryLevel::High,
        }
    }

    /// The edge that leaves this level.
    pub open spec fn spec_transition(self) -> Transition {
        match self {
            BinaryLevel::Low => Transition::Rising,
            BinaryLevel::High => Transition::Falling,
        }
    }

    pub fn neg(self) -> (r: Self)
        ensures
            r == self.spec_neg(),
    {
        match self {
            Self::High => Self::Low,
            Self::Low => Self::High,
        }
    }

    pub fn transition(self) -> (r: Transition)
        ensures
            r == self.spec_transition(),
    {
        match self {
            Self::Low => Transition::Rising,
            Self::High => Transition::Falling,
        }
    }
}

} // verus!
