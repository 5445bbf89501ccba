[package]
name = "reti"
version = "0.1.0"
edition = "2021"
publish = false

[dependencies]
chrono = "0.4"
clap = "2"
config = { version = "0.11", default-features = false, features = ["toml"] }
failure = "0.1"
serde = { version = "1", features = ["derive"] }
serde_json = "1"
tempfile = "3"
xdg = "2"
