//! Solver library for a grid-coverage game on orthogonal polygonal rooms.
//!
//! One or more robots sweep every reachable cell of a rectilinear room,
//! collecting boosters that extend their manipulators or let them clone.
//! The crate also synthesizes puzzle maps from inclusion/exclusion
//! constraints, and encodes and decodes the textual descriptor formats.

pub mod codec;
pub mod geom;
pub mod map;
pub mod models;
pub mod parse;
pub mod puzzle;
mod rng;
pub mod score;
pub mod solve;
pub mod utils;
