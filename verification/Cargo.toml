[package]
name = "pipf"
version = "0.1.0"
edition = "2021"
publish = false

[dependencies]
curve25519-dalek = { version = "4", features = ["rand_core", "digest", "serde"] }
merlin = "3"
rand = "0.8"
serde = { version = "1", features = ["derive"] }
sha2 = "0.10"
