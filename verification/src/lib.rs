//! Procedural tiling patterns on a raster canvas: a square lattice, a
//! flat-top hexagon lattice, and a randomized cellular pattern grown from
//! anchor points that keep a minimum distance from one another.
//!
//! All positions are points of the integer lattice, so every distance test
//! is exact integer arithmetic, and what the functions promise is proved for
//! all their inputs. Randomness is not drawn here: the functions that need
//! it take it as a function argument and promise what holds whatever it
//! returns.
//!
//! - [`geometry`]: points, pixels, bounds and squared distances.
//! - [`sampler`]: growing anchors by dart throwing.
//! - [`raster`]: which anchor governs a pixel, and the cellular canvas.
//! - [`lattice`]: the tiles of the square lattice and the hexagons.
//! - [`canvas`]: the pixel buffer and the drawing primitives.
//! - [`patterns`]: the three patterns, from canvas size to painted canvas.
//! - [`arith`]: facts of integer arithmetic used by the others.

pub mod arith;
pub mod canvas;
pub mod geometry;
pub mod lattice;
pub mod patterns;
pub mod raster;
pub mod sampler;
