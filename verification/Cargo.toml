[package]
name = "neura_rank_index"
version = "0.1.0"
edition = "2021"
publish = false

[dependencies]
rayon = "1"
bincode = "1.3"
serde = { version = "1", features = ["derive"] }
serde_json = "1"
axum = "0.7"
tokio = { version = "1", features = ["rt-multi-thread", "macros", "net", "sync"] }
pyo3 = { version = "0.21", features = ["abi3-py38", "extension-module"] }
