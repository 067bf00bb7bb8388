[package]
name = "world_inspector"
version = "0.1.0"
edition = "2021"
publish = false

[dependencies]
base64 = "=0.22.1"
miniz_oxide = "=0.8.9"
rayon = "=1.12.0"
rusty-leveldb = "=3.0.3"
serde = { version = "=1.0.229", features = ["derive"] }
serde_json = "=1.0.154"
