//! The symbols of an NRZI frame.
use vstd::prelude::*;

verus! {

/// One symbol of an encoded frame.
#[derive(Debug, Clone, Copy, PartialEq, Eq, Structural)]
pub enum Value {
    /// Preamble symbol, with its index in the preamble.
    StartOfFrame(u8),
    /// A payload bit.
    Bit(bool),
    /// Trailer symbol, with its index in the trailer.
    EndOfFrame(u8),
    /// A one inserted after a run of zeros, carrying no payload.
    StuffBit,
    /// Nothing more to send.
    Complete,
}

} // verus!
