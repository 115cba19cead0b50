//! A machine of wires and gates that adds two numbers, and the wires that
//! were swapped in it.

pub mod part1;
pub mod graph;
pub mod part2;
