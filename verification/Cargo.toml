[package]
name = "blockpress"
version = "0.1.0"
edition = "2021"
publish = false

[dependencies]
memmap = "*"

[dev-dependencies]
rand = { version = "*", features = ["small_rng"] }
