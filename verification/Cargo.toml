[package]
name = "rooster"
version = "0.1.0"
edition = "2021"
publish = false

[dependencies]
rust-crypto = "0.2"
rand = "0.8"
getopts = "0.2"
rpassword = "*"
rustc-serialize = "0.3"
aes-gcm = "*"
scrypt = "*"
pbkdf2 = "*"
hmac = "*"
sha2 = "*"
