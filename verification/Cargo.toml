[package]
name = "gazetteer_entity_parser"
version = "0.1.0"
edition = "2021"
publish = false

[dependencies]
failure = "0.1"
fnv = "1.0"
rmp-serde = "1"
serde = { version = "1", features = ["derive"] }
serde_json = "1"
