//! Hiking trails on a map of heights: every step of a trail climbs by one,
//! from height 0 to height 9.

pub mod part1;
pub mod part2;
