[package]
name = "cytah_core"
version = "0.1.0"
edition = "2021"
publish = false

[dependencies]
sha2 = "=0.10.9"
sha3 = "=0.10.9"
secp256k1 = { version = "=0.28.2", features = ["recovery", "rand-std"] }
rand = "=0.8.8"
hex = "=0.4.3"
serde = { version = "=1.0.229", features = ["derive"] }
serde_json = "=1.0.154"
toml = "=0.8.23"
chrono = "=0.4.45"
rayon = "=1.12.0"
clap = { version = "=4.6.7", features = ["derive"] }
