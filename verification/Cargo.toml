[package]
name = "splitpr"
version = "0.1.0"
edition = "2021"
publish = false

[dependencies]
anyhow = "*"
atty = "*"
env_logger = "*"
git2 = { version = "*", default-features = false }
log = "*"
