[package]
name = "turing_machine"
version = "0.1.0"
edition = "2021"
publish = false

[dependencies]
rand = { version = "0.8.5", features = ["small_rng"] }
