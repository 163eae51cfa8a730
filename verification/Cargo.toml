[package]
name = "paintop_cpu"
version = "0.1.0"
edition = "2021"
publish = false

[dependencies]
blake3 = { version = "1", default-features = false, features = ["pure"] }
serde_json = "=1.0.154"
thiserror = "=2.0.21"
