[package]
name = "pairgen"
version = "0.1.0"
edition = "2021"
publish = false

[dependencies]
rand = "*"
rusqlite = { version = "*", features = ["bundled"] }
serde_json = "*"
