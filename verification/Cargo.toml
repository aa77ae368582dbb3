[package]
name = "brs"
version = "0.1.0"
edition = "2021"
publish = false

[dependencies]
rand = { version = "0.9", features = ["small_rng"] }
flate2 = "1"
base64 = "0.22"
anyhow = "1"
serde = { version = "1", features = ["derive"] }
serde_json = "1"
dirs = "*"
bms-rs = "*"
encoding_rs = "0.8"
num-traits = "0.2"
ab_glyph = "0.2"
