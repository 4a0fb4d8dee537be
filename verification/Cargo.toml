[package]
name = "chive"
version = "0.1.0"
edition = "2021"
publish = false

[dependencies]
anyhow = "*"
clap = { version = "*", features = ["derive"] }
env_logger = "*"
fuser = "*"
libc = "*"
log = "*"
serde = { version = "*", features = ["derive"] }
time = "*"
toml = "*"
