//! Baseband recovery and generation of amplitude modulated, bit-stuffed NRZI frames.
use vstd::prelude::*;

pub mod encodings;
pub mod sampling;
pub mod signals;
pub mod units;
pub mod utils;

verus! {

} // verus!
