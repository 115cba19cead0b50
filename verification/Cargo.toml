[package]
name = "advent_of_rust_2024"
version = "0.1.0"
edition = "2021"
publish = false

[dependencies]
itertools = "*"
memoize = "*"
rayon = "*"
