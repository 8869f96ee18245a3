//! Transitions of an on-off keyed envelope.
use vstd::prelude::*;

verus! {

/// What happened to the envelope over a stretch of windows.
#[derive(Debug, Clone, Copy, PartialEq, Eq, Structural)]
pub enum Transition {
    /// A low-to-high edge.
    Rising,
    /// A high-to-low edge.
    Falling,
    /// That many windows without an edge.
    Hold(usize),
    /// That many windows without synchronisation.
    Noise(usize),
}

} // verus!
