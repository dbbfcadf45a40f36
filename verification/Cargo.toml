[package]
name = "psi_sa"
version = "0.1.0"
edition = "2021"
publish = false

[dependencies]
aes = "0.8"
blake3 = "1"
sha3 = "0.10"
rand = "0.8"
rand_chacha = "0.3"
clap = { version = "4", features = ["derive"] }
rayon = "1"
lambdaworks-math = "*"
lambdaworks-crypto = "*"
