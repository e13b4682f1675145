[package]
name = "axim"
version = "0.1.0"
edition = "2021"
publish = false

[dependencies]
anyhow = "1"
data-encoding = "2"
nix = { version = "0.29", features = ["fs", "term"] }
sha3 = "0.10"
