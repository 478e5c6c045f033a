//! Simulation core of a two-player ball-and-paddle game.
//!
//! The core advances a ball inside a rectangular play area tick by tick and
//! frames the state of a match as a fixed 32-byte snapshot. Every number of
//! the simulation is an IEEE-754 single-precision value, kept as its bit
//! pattern in [`single::Single`]; its arithmetic is carried out on integers
//! and proved to round to nearest, ties to even.
pub mod ball;
pub mod interface;
pub mod rounding;
pub mod single;
