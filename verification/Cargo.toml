[package]
name = "zkif_bulletproofs"
version = "0.1.0"
edition = "2021"
publish = false

[dependencies]
bulletproofs = { version = "=4.0.0", default-features = false, features = ["std", "yoloproofs"] }
curve25519-dalek = "=4.1.3"
curve25519-dalek-ng = "*"
merlin = "*"
zkinterface = "=1.3.4"
