//! Counts the points of a connected region of the integer grid: starting from
//! a given point, a cell belongs to the region when the decimal digit sums of
//! its coordinates stay within a limit and it can be reached by unit moves
//! through cells that also stay within the limit.

pub mod digits;
pub mod point;
pub mod region;
pub mod cli;
pub mod parse;
