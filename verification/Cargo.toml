[package]
name = "slimchain_core"
version = "0.1.0"
edition = "2021"
publish = false

[dependencies]
blake2b_simd = "*"
chrono = "*"
crossbeam = "*"
postcard = { version = "*", features = ["alloc"] }
serde = { version = "*", features = ["derive"] }
