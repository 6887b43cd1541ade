[package]
name = "glitch_maze"
version = "0.1.0"
edition = "2021"
publish = false

[dependencies]
rand = { version = "=0.7.3", features = ["small_rng"] }
rand_distr = "=0.2.2"
image = "=0.23.14"
imageproc = "=0.22.0"
