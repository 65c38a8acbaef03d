[package]
name = "tower_cache"
version = "0.1.0"
edition = "2021"
publish = false

[dependencies]
image = "*"
structopt = "*"
log = "*"
env_logger = "*"
chrono = "*"
