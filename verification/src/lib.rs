//! An exact, integer model of the Sierpinski tetrahedron: the recursive
//! placement of its leaves, the instance sets handed to a renderer, and the
//! animated transition between two recursion levels.
//!
//! Every placement is kept on a fixed-point lattice: the leaves below the
//! identity are exact down to the deepest level, and two runs agree to the
//! last bit.

pub mod powers;
pub mod transform;
pub mod generator;
pub mod color;
pub mod instances;
pub mod animation;
pub mod transition;
pub mod fractal;
pub mod geometry;
