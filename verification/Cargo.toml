[package]
name = "authkit"
version = "0.1.0"
edition = "2021"
publish = false

[dependencies]
argon2 = "*"
chrono = "*"
hmac = "*"
rand = "*"
sha2 = "*"
