[package]
name = "morpion"
version = "0.1.0"
edition = "2021"
publish = false

[dependencies]
ahash = "*"
num_cpus = "*"
rayon = "*"
svg = "*"
