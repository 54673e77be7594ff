[package]
name = "hagrid"
version = "0.1.0"
edition = "2021"
publish = false

[dependencies]
url = "2"
hmac = "0.12"
sha2 = "0.10"
