[package]
name = "blockchain"
version = "0.1.0"
edition = "2021"
publish = false

[dependencies]
rust-crypto = "=0.2.36"
ripemd160 = "=0.9.1"
bs58 = "=0.5.1"
secp256k1 = "=0.33.1"
rand = "=0.10.3"
rkv = "=0.20.0"

[dev-dependencies]
tempfile = "=3.27.0"
