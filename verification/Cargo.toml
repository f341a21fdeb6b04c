[package]
name = "ahc_solvers"
version = "0.1.0"
edition = "2021"
publish = false

[dependencies]
rand = "0.8"
rand_pcg = "0.3"
rustc-hash = "1"
itertools = "0.11"
proconio = "0.4"
