[package]
name = "chancery"
version = "0.1.0"
edition = "2021"
publish = false

[dependencies]
anyhow = "1"
chrono = "0.4"
clap = { version = "4", features = ["derive"] }
p256 = { version = "0.13", features = ["ecdsa", "pem", "pkcs8"] }
rand_core = { version = "0.6", features = ["getrandom"] }
serde = { version = "1", features = ["derive"] }
serde_json = "1"
sha2 = "0.10"
tar = "0.4"
tiny_http = "0.12"
toml = "0.8"
zeroize = "1"
