[package]
name = "fyp_core"
version = "0.4.1"
edition = "2021"
publish = false

[dependencies]
flate2 = "1"
md-5 = "0.10"
sha2 = "0.10"
aes = "0.8"
cbc = { version = "0.1", features = ["alloc"] }
rc4 = "0.1"
anyhow = "1"
clap = { version = "4", features = ["derive"] }
serde = { version = "1", features = ["derive"] }
serde_json = "1"
