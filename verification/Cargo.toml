[package]
name = "meilidb_core"
version = "0.1.0"
edition = "2021"
publish = false

[dependencies]
sled = "0.34"
indexmap = { version = "2", features = ["serde"] }
serde = { version = "1", features = ["derive"] }
bincode = "1"
serde_json = "1"
toml = "0.5"

[dev-dependencies]
tempfile = "3"
