//! Decoder for the output tensors of an EAST-style scene-text detector.
//!
//! The network reports, for every cell of a coarse output grid, a confidence
//! score and five geometry channels (four side distances and a rotation
//! angle). This crate holds the verified part of turning those two tensors
//! into an ordered list of box candidates: row-major traversal of the grid,
//! flat indexing into the tensor planes, gating each cell on a threshold
//! mask, and emitting one candidate per qualifying cell, carrying that cell's
//! score and geometry. The numeric values themselves are IEEE-754
//! single-precision bit patterns; interpreting them (trigonometry, rectangle
//! construction, suppression of overlaps, rendering) is left to the caller.

pub mod decode;
pub mod grid;

pub use decode::Candidate;
pub use decode::decode;
pub use grid::GeoGrid;
pub use grid::ScoreGrid;
