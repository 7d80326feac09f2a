[package]
name = "relay"
version = "0.1.0"
edition = "2021"
publish = false

[dependencies]
ws = "*"
crossbeam = "*"
log = "*"
env_logger = "*"
