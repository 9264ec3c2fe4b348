[package]
name = "fo_proto_format"
version = "0.1.0"
edition = "2021"
publish = false

[dependencies]
anyhow = "1"
cini = "*"
serde = { version = "1", features = ["derive"] }
serde_json = "1"
toml = "*"
