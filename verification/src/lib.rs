//! Integer core of a doom-style fire effect: the heat simulation, its
//! pseudo-random source, the bloom blur, the upscaling compositor and the
//! snapshot encoder, each with a contract proved by Verus.

pub mod bits;
pub mod bloom;
pub mod color;
pub mod display;
pub mod embers;
pub mod fullscreen;
pub mod grid;
pub mod heat;
pub mod rng;
pub mod snapshot;

use vstd::prelude::*;

verus! {

/// Width of the simulated heat field, in cells.
pub const W: usize = 320;
/// Height of the simulated heat field, in cells.
pub const H: usize = 200;
/// Upscale factor from the heat field to the screen.
pub const SCALE: usize = 3;
/// Screen width, in pixels: `W * SCALE`.
pub const OW: usize = 960;
/// Screen height, in pixels: `H * SCALE`.
pub const OH: usize = 600;
/// Width of the half-resolution bloom buffer: `W / 2`.
pub const BW: usize = 160;
/// Height of the half-resolution bloom buffer: `H / 2`.
pub const BH: usize = 100;
/// Side of the square, tiling noise texture.
pub const NOISE: usize = 256;

} // verus!
