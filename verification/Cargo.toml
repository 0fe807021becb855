[package]
name = "querystrong"
version = "0.1.0"
edition = "2021"
publish = false

[dependencies]
percent-encoding = "*"
serde = { version = "*", features = ["derive"] }
