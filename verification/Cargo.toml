[package]
name = "tmx_trimmer"
version = "0.1.0"
edition = "2021"
publish = false

[dependencies]
quick-xml = "*"
anyhow = "*"
chrono = "*"
