[package]
name = "chasset"
version = "0.1.0"
edition = "2021"
publish = false

[dependencies]
blake2 = "=0.10.6"
memmap = "=0.7.0"
rand = "=0.8.8"
serde = { version = "=1.0.229", features = ["derive"] }
