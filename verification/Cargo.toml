[package]
name = "benchmark_games"
version = "0.1.0"
edition = "2021"
publish = false

[dependencies]
flate2 = "=1.1.10"
serde_json = "=1.0.154"
sha2 = "0.10"
tar = "=0.4.46"
