[package]
name = "vm"
version = "0.1.0"
edition = "2021"
publish = false

[dependencies]
rust-crypto = "=0.2.36"

[dev-dependencies]
blake2 = "=0.10.6"
