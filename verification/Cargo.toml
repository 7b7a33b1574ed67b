[package]
name = "mpc"
version = "0.1.0"
edition = "2021"
publish = false

[dependencies]
secp256k1 = { version = "=0.33.1", features = ["rand"] }
sha2 = "=0.11.1"
