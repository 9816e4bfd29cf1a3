//! Concrete puzzles.

pub mod rubik;
