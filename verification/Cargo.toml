[package]
name = "chunk_availability"
version = "0.1.0"
edition = "2021"
publish = false

[dependencies]
anyhow = "1"
indexmap = "2"
serde_json = "1"
turbo-tasks-hash = "0.1.0"
twox-hash = "*"
