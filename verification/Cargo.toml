[package]
name = "json2jsonl"
version = "0.1.0"
edition = "2021"
publish = false

[dependencies]
anyhow = "1"
clap = { version = "4", features = ["derive"] }
indicatif = "0.17"
serde = "1"
serde_json = { version = "1", features = ["raw_value"] }
