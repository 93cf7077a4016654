[package]
name = "identity_core"
version = "0.1.0"
edition = "2021"
publish = false

[dependencies]
rust-argon2 = "*"
base64 = "*"
hmac = "*"
rand = "*"
sha2 = "*"
