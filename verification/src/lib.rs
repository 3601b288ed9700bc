//! Evenly spaced markers along a cubic Bezier curve, on an integer lattice.
//!
//! Given a curve and a spacing, the library finds the parameters at which
//! markers lie a fixed distance of arc length apart, and the position and
//! direction of the curve there.
//!
//! All arithmetic is exact and in whole numbers. Control points lie on an
//! integer grid. A parameter is a whole number `t` of lattice steps,
//! `resolution` of which make up the unit interval; a position is a numerator
//! over `resolution^3`, a velocity one over `resolution^2`, and a length is
//! counted in units of `1 / resolution^3` of a grid unit, with the magnitude
//! of each velocity rounded down to a whole number.

pub mod arc_length;
pub mod curve;
pub mod isqrt;
pub mod sampler;
