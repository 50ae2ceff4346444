//! Transfer-matrix solver for planar multilayer optics.
//!
//! The library computes the reflectance and transmittance of a stack of
//! homogeneous layers illuminated by a plane wave.  All arithmetic is exact
//! fixed-point arithmetic over scaled integers, so every step of the
//! pipeline carries a contract that pins its result down to the raw unit.

pub mod complex;
pub mod fixed;
pub mod matrix;
pub mod solve;
pub mod trig;
