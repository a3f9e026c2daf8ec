[package]
name = "memora"
version = "0.1.0"
edition = "2021"
publish = false

[dependencies]
clap = "*"
env_logger = "*"
file-lock = "*"
log = "*"
serde = { version = "*", features = ["derive"] }
serde_yaml = "*"
walkdir = "*"
