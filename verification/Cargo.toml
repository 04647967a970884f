[package]
name = "bbm_ledger"
version = "0.1.0"
edition = "2021"
publish = false

[dependencies]
anyhow = "=1.0.104"
serde = { version = "=1.0.229", features = ["derive"] }
sha3 = "=0.12.0"
wasmtime = "=48.0.5"
