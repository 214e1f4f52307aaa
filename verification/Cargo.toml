[package]
name = "ferveo"
version = "0.1.0"
edition = "2021"
publish = false

[dependencies]
ark-bls12-381 = "0.2"
ark-ec = "0.2"
ark-ff = "0.2"
ark-poly = "0.2"
ark-serialize = "0.2"
ark-std = "0.2"
blake2b_simd = "0.5"
curve25519-dalek = { version = "3", features = ["serde"] }
rand = "0.7"
serde = { version = "1", features = ["derive"] }

[dev-dependencies]
rand_chacha = "0.2"
x25519-dalek = "1"
