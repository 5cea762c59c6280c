[package]
name = "eth2_types"
version = "0.1.0"
edition = "2021"
publish = false

[dependencies]
rand = "=0.5.6"
tiny-keccak = "=1.5.0"
