[package]
name = "pvss_generator"
version = "0.1.0"
edition = "2021"
publish = false

[dependencies]
num-bigint = "0.4"
blake3 = "1"
clap = "4"
rand = "0.8"
serde = { version = "1", features = ["derive"] }
serde_json = "1"
toml = "0.8"
num-traits = "0.2"
