//! Enumerates every filling of Aristotle's hexagonal number puzzle: the
//! numbers 1 to 19 placed in a hexagon of 19 cells so that every straight
//! line of cells sums to 38.

pub mod rows;
pub mod solver;
pub mod puzzle;
