//! Compiles permutation puzzles into lookup tables and simulates them.

pub mod compiler;
pub mod defs;
pub mod grouping;
pub mod puzzles;
pub mod reach;
pub mod sim;
