[package]
name = "fmg"
version = "0.1.0"
edition = "2021"
publish = false

[dependencies]
petgraph = "0.7"
serde = { version = "1", features = ["derive"] }
serde_yaml = "0.9"
serde_json = "1"
toml = "0.8"
walkdir = "2"
clap = { version = "4", features = ["derive"] }
