//! Towels with coloured stripes, and the designs that can be laid out
//! with them.

pub mod part1;
pub mod part2;
