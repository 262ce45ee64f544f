//! Stippling and pen-path planning for a two-motor plotter, in exact integer
//! arithmetic.
//!
//! A picture is turned into points, more of them where it is dark
//! ([`sampler`]); the points are moved towards the dark parts of their cells
//! ([`voronoi`]), joined into short tours ([`tsp`]), fitted into the drawing
//! area and turned into the lengths of the two cords that hold the pen
//! ([`gcode`]).
//!
//! Every coordinate is a signed count of lattice units, 100 000 to one unit
//! of length; a lattice unit is the distance below which two points are taken
//! to be the same point. Shares of ink are fractions of small integers. All
//! contracts are stated over mathematical integers, so that the points, tours
//! and cord lengths computed here are the same on every machine.

pub mod arith;
pub mod point;
pub mod color;
pub mod raster;
pub mod sampler;
pub mod voronoi;
pub mod gcode;
pub mod tsp;
pub mod worker;

pub use point::Point;
pub use sampler::sample_points;
