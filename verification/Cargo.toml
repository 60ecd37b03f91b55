[package]
name = "mdlinks"
version = "0.1.0"
edition = "2021"
publish = false

[dependencies]
regex = "1"
serde_yaml = "0.9"
serde = { version = "1", features = ["derive"] }
serde_json = "1"
thiserror = "1"
