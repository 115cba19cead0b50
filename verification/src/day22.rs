//! Secret numbers that evolve by mixing and pruning.

pub mod part1;
pub mod part2;
