[package]
name = "bitask"
version = "0.1.0"
edition = "2021"
publish = false

[dependencies]
anyhow = "1"
clap = { version = "4", features = ["derive"] }
crc32fast = "1"
env_logger = "*"
fs2 = "0.4"
log = "0.4"
thiserror = "*"
