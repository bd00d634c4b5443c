[package]
name = "massive_graph_core"
version = "0.1.0"
edition = "2021"
publish = false

[dependencies]
ahash = { version = "=0.8.12", default-features = false, features = ["std"] }
serde = { version = "=1.0.229", features = ["derive"] }
bincode = { version = "=2.0.1", features = ["serde"] }
toml = "=0.8.23"
tracing = "=0.1.44"
dashmap = "=6.2.1"
