[package]
name = "chidori_core"
version = "0.1.0"
edition = "2021"
publish = false

[dependencies]
im = "*"
petgraph = "*"
serde_yaml = "*"
serde = { version = "*", features = ["derive"] }
tracing = "*"
tracing-subscriber = "*"
anyhow = "*"
