//! Encoders of amplitude modulated signals.
use vstd::prelude::*;

pub mod am;

verus! {

} // verus!
