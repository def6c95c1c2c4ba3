[package]
name = "cyd-companion"
version = "0.1.0"
edition = "2021"
publish = false

[dependencies]
hex = "0.4"
sha2 = "0.10"
serde = { version = "1", features = ["derive"] }
serde_json = "1"
rand = "0.8"
qrcode = { version = "0.14", default-features = false }
serialport = { version = "4", default-features = false }
