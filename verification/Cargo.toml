[package]
name = "renet_core"
version = "0.1.0"
edition = "2021"
publish = false

[dependencies]
bytes = "1"
chacha20poly1305 = "0.10"
rand = "0.8"
