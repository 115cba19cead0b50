//! A network of computers, each named by two characters, and the groups
//! in which every computer is linked to every other.

pub mod part1;
pub mod part2;
