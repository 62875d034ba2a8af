[package]
name = "entry_codec"
version = "0.1.0"
edition = "2021"
publish = false

[dependencies]
chrono = "0.4"

[dev-dependencies]
csv = "1"
quick-csv = "0.1"
serde_json = "1"
