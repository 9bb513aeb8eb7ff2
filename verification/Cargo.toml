[package]
name = "replays_parser"
version = "0.1.0"
edition = "2021"
publish = false

[dependencies]
anyhow = "1"
blowfish = "0.9"
byteorder = "1"
clap = { version = "4", features = ["derive"] }
flate2 = "1"
rayon = "1"
serde = { version = "1", features = ["derive"] }
serde_json = "1"
