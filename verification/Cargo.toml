[package]
name = "torrenter"
version = "0.1.0"
edition = "2021"
publish = false

[dependencies]
dirs = "*"
open = "*"
log = "*"
env_logger = "*"
