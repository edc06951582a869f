[package]
name = "rust_server"
version = "0.1.0"
edition = "2021"

[dependencies]
linked-hash-map = "0.5"
regex = "1"
rand = "0.8"
