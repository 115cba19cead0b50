//! A disk of files and free space that is compacted, block by block or
//! file by file.

pub mod part1;
pub mod part2;
