[package]
name = "roomstate"
version = "0.1.0"
edition = "2021"
publish = false

[dependencies]
ruma = { version = "*", features = ["events"] }
serde = { version = "1", features = ["derive"] }
serde_json = "1"
sha2 = "0.10"
sled = "0.34"
tracing = "0.1"
