[package]
name = "taskmaster"
version = "0.1.0"
edition = "2021"
publish = false

[dependencies]
toml = "*"
serde = { version = "1", features = ["derive"] }
serde_derive = "1"
libc = "*"
log = "*"
env_logger = "*"
