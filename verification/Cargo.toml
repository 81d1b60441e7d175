[package]
name = "cipher_engine"
version = "0.1.0"
edition = "2021"
publish = false

[dependencies]
num-integer = "0.1"
nom = "7"
