//! Garden plots: the regions of a grid in which neighbouring cells hold
//! the same letter, and the price of fencing them.

pub mod part1;
pub mod part2;
