[package]
name = "b2"
version = "0.1.0"
edition = "2021"
publish = false

[dependencies]
anyhow = "1"
clap = { version = "4", features = ["derive"] }
crossbeam = "0.8"
hex = "0.4"
serde_yaml = "0.9"
sha1 = "0.10"
sha256 = "1"
thiserror = "2"
