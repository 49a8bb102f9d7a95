[package]
name = "add_rsi"
version = "0.1.0"
edition = "2021"
publish = false

[dependencies]
anyhow = "1"
clap = { version = "4", features = ["derive"] }
csv = "1"
indicatif = "0.17"
rayon = "1"
