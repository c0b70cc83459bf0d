[package]
name = "connection_store"
version = "0.1.0"
edition = "2021"
publish = false

[dependencies]
anyhow = "1"
hex = "0.4"
home = "0.5"
openssl = "0.10"
openssl-probe = "0.1"
rustc-hash = "2"
serde = { version = "1", features = ["derive"] }
serde_json = "1"
sha2 = "0.10"
uuid = { version = "1", features = ["v4"] }
