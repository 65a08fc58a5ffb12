[package]
name = "avril"
version = "0.1.0"
edition = "2021"
publish = false

[dependencies]
fnv = "=1.0.7"
midi = "=0.1.0"
midir = "=0.11.1"
rand = { version = "=0.9.5", features = ["small_rng"] }
rand_distr = "=0.5.1"
