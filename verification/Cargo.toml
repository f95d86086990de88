[package]
name = "certified_kv"
version = "0.1.0"
edition = "2021"
publish = false

[dependencies]
sha2 = "*"
ic-verify-bls-signature = "*"
serde = { version = "*", features = ["derive"] }
serde_cbor = "*"

[dev-dependencies]
ic-certification = "*"
