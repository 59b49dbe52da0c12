[package]
name = "bip"
version = "0.1.0"
edition = "2021"
publish = false

[dependencies]
crc = "1.8"
sha1 = "0.10"
rand = "0.8"
chrono = "0.4"
