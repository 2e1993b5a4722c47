[package]
name = "uniclip"
version = "0.1.0"
edition = "2021"
publish = false

[dependencies]
sha2 = "*"
hex = "*"
tokio = { version = "*", features = ["full"] }
log = "*"
env_logger = "*"
get_if_addrs = "*"
arboard = "*"
