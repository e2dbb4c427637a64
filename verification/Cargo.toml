[package]
name = "loser"
version = "0.1.0"
edition = "2021"
publish = false

[dependencies]
pdf-extract = "*"
serde = { version = "1", features = ["derive"] }
serde_json = "1"
tiny_http = "0.12"
