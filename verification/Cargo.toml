[package]
name = "evm_state"
version = "0.1.0"
edition = "2021"
publish = false

[dependencies]
keccak-hash = "=0.12.0"
tempfile = "=3.27.0"
serde = { version = "=1.0.229", features = ["derive"] }
serde_json = "=1.0.151"
thiserror = "=1.0.69"
