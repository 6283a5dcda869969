[package]
name = "disk"
version = "0.1.0"
edition = "2021"
publish = false

[dependencies]
docopt = "1"
env_logger = "*"
log = "0.4"
