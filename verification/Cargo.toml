[package]
name = "yonodex"
version = "0.1.0"
edition = "2021"
publish = false

[dependencies]
rust_decimal = "1"
ed25519-dalek = "2"
hex = "0.4"
argon2 = "0.5"
rand = "0.9"
rusqlite = { version = "0.32", features = ["bundled"] }
serde = { version = "1", features = ["derive"] }
serde_json = "1"
tokio = { version = "1", features = ["process", "io-util", "sync", "rt", "macros"] }
log = "0.4"
