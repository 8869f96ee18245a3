//! Decoders of amplitude modulated signals.
use vstd::prelude::*;

pub mod am;
pub mod decoder;

verus! {

} // verus!
