[package]
name = "soroban-upgrade-safeguard"
version = "0.1.0"
edition = "2021"
publish = false

[dependencies]
anyhow = "1"
clap = { version = "4", features = ["derive"] }
colored = "*"
serde = { version = "1", features = ["derive"] }
serde_json = "1"
stellar-xdr = "22"
wasmparser = "*"
