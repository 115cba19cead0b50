//! A small computer with three registers and eight instructions.

pub mod part1;
pub mod part2;
