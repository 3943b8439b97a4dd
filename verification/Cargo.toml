[package]
name = "tvm_abi"
version = "0.1.0"
edition = "2021"
publish = false

[dependencies]
sha2 = "*"
ed25519-dalek = "*"
base64 = "*"
serde = { version = "*", features = ["derive"] }
serde_json = "*"

[dev-dependencies]
rand = "*"
