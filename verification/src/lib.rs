//! A windowed event-accumulation and double-integral reconstruction engine
//! for event cameras: it fuses a timestamp-ordered stream of per-pixel
//! brightness-change events with periodically captured blurred reference
//! frames, accumulating events into fixed-duration output intervals,
//! splitting the boundary intervals of each exposure window at its true
//! edges, and rebuilding per-interval latent images around the window's
//! midpoint pivot.
//!
//! Counts, indices and coefficient-scaled log contributions are exact
//! integers throughout (coefficients are carried in thousandths), so the
//! whole engine is verified; the transcendental steps of the output (the
//! exponentiation of latent logs, the reference-frame logarithms and the
//! gradient fields of the energy metric) are left to the consumer, which
//! receives their exact integer inputs.

use vstd::prelude::*;

pub mod adder;
pub mod controller;
pub mod image;
pub mod laws;
pub mod mask;
pub mod optimize;
pub mod packets;

verus! {

/// Signed contribution of one event: +1 for an "on" (brightening) event,
/// -1 for an "off" (darkening) event.
pub open spec fn polarity_value(on: bool) -> int {
    if on {
        1
    } else {
        -1
    }
}

} // verus!
