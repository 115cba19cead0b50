//! Verified solutions for a set of grid, search and simulation puzzles.
//!
//! The heart of the crate is a direction-aware shortest-path search on a
//! character maze, together with the analysis of wall-clipping shortcuts
//! on the resulting cost map. Every public function carries a contract.

pub mod best;
pub mod cheats;
pub mod costs;
pub mod day01;
pub mod day02;
pub mod day03;
pub mod day04;
pub mod day05;
pub mod day06;
pub mod day07;
pub mod day09;
pub mod day10;
pub mod day11;
pub mod day12;
pub mod day14;
pub mod day16;
pub mod day17;
pub mod day18;
pub mod day19;
pub mod day20;
pub mod day22;
pub mod day23;
pub mod day24;
pub mod day25;
pub mod laws;
pub mod maze;
pub mod round_trip;
pub mod route;
pub mod search;
pub mod tiles;
pub mod util;
