[package]
name = "puzzlebox"
version = "0.1.0"
edition = "2021"
publish = false

[dependencies]
fixedbitset = "*"
grid = "*"
itertools = "*"
pathfinding = "*"
petgraph = "*"
rayon = "*"
rustc-hash = "*"
slab = "*"
