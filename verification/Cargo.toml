[package]
name = "dotm"
version = "0.1.0"
edition = "2021"
publish = false

[dependencies]
serde = { version = "1", features = ["derive"] }
serde_yaml = "*"
structopt = "0.3"
thiserror = "1"
