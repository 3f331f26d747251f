[package]
name = "rumake"
version = "0.1.0"
edition = "2021"
publish = false

[dependencies]
regex = "1"
shellwords = "1"
yaml-rust = "0.4"
linked-hash-map = "0.5"
log = "0.4"
simple_logger = "*"
