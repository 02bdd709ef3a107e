[package]
name = "mordant"
version = "0.1.0"
edition = "2021"
publish = false

[dependencies]
annotate-snippets = "0.12"
serde = { version = "1", features = ["derive"] }
serde_json = "1"
toml = "*"
