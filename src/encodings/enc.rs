//! Encoders.
use vstd::prelude::*;

pub mod nrzi;

verus! {

} // verus!
