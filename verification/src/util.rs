//! Small shared building blocks: points, character grids, text helpers.

pub mod grid;
pub mod order;
pub mod point;
pub mod product;
pub mod text;
