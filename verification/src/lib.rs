//! Random generation of latin squares with the Jacobson-Matthews
//! random walk over a tri-state incidence cube.
//!
//! Build a cube with [`IncidenceCube::new_cyclic`], mix it with
//! [`IncidenceCube::shuffle`], and read the resulting square off with
//! [`IncidenceCube::as_latin_square`]; [`LatinSquare::new_random`] does the
//! three in one call.

pub mod cell;
pub mod grid;
pub mod latin_square;
mod rng;


pub use crate::latin_square::IncidenceCube;
pub use crate::latin_square::LatinSquare;
