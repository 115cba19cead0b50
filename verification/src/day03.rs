//! Multiplications scattered through corrupted text, read by state
//! machines that take one character at a time.

pub mod part1;

pub mod part2;
pub mod part2_state_machine;
