//! Chaikin corner-cutting on fixed-point control points, a looping
//! generation table for animated playback, and a disc stamp for raw
//! RGBA frames.

pub mod point;
pub mod chaikin;
pub mod sequencer;
pub mod dot;
