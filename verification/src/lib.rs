//! A recursive Monte Carlo path tracer over fixed-point arithmetic.
//!
//! Scalars are signed 64-bit fixed-point numbers scaled by `SCALE` (2^32):
//! the raw value `v` stands for the real number `v / SCALE`. All geometry,
//! intersection, scattering and radiance logic is carried out exactly on
//! these integers, so every function's result is pinned down by its contract.

pub mod camera;
pub mod fixed;
pub mod geometry;
pub mod hitable;
pub mod material;
pub mod random;
pub mod trace;

use vstd::prelude::*;

verus! {

/// Raw fixed-point representation of 1.0: every scalar `v` stands for `v / SCALE`.
pub const SCALE: i64 = 0x1_0000_0000;

} // verus!
