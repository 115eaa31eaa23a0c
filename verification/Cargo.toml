[package]
name = "cryptopals"
version = "0.1.0"
edition = "2021"
publish = false

[dependencies]
aes = "0.7"
base64 = "0.13"
hex = "0.4"
