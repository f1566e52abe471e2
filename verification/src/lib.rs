//! Update core of a real-time tactical simulation: mobile units whose
//! movement, facing and behaviour are driven by a per-unit state machine,
//! gated by spatial relationships (overlap, field of view), with a textual
//! codec crossing the boundary to an externally supplied scripting layer.
//!
//! All coordinates are fixed point: hundredths of a world unit. All angles
//! are fixed point: hundredths of a radian, a full turn being `TWO_PI_CR`.
use vstd::prelude::*;

pub mod geometry;
pub mod ident;
pub mod interpreter;
pub mod parser;
pub mod shape;
pub mod unit;
pub mod world;

verus! {

} // verus!
