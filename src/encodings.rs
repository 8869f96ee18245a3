//! NRZI line coding with bit stuffing.
use vstd::prelude::*;

pub mod dec;
pub mod enc;
pub mod nrzi;
pub mod round_trip;

verus! {

} // verus!
