[package]
name = "rlp"
version = "0.1.0"
edition = "2021"
publish = false

[dependencies]
rustc-hex = "2"
