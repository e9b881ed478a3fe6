[package]
name = "triptych"
version = "0.1.0"
edition = "2021"
publish = false

[dependencies]
curve25519-dalek = { version = "4", features = ["rand_core"] }
merlin = "3"
rand_core = "0.6"
zeroize = "1"

[dev-dependencies]
rand_chacha = "0.3"
