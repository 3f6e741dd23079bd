[package]
name = "murmur_hash_rust"
version = "0.1.0"
edition = "2021"
publish = false

[dependencies]
bincode = "1"
regex = "1"
