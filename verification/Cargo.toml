[package]
name = "near_network"
version = "0.1.0"
edition = "2021"
publish = false

[dependencies]
borsh = { version = "=1.8.1", features = ["derive"] }
bs58 = "0.5"
byteorder = "=1.5.0"
bytes = "=0.4.12"
cached = { version = "=0.56.0", default-features = false }
ed25519-dalek = "=2.2.0"
log = "=0.4.34"
serde = { version = "1", features = ["derive"] }
serde_json = "1"
sha2 = "=0.10.9"
