[package]
name = "polykit"
version = "0.1.0"
edition = "2021"
publish = false

[dependencies]
bitvec = "1"
itertools = "0.10"
once_cell = "1"
rayon = "1"
smallvec = "1"
