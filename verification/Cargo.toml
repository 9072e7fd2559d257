[package]
name = "vectdb"
version = "0.1.0"
edition = "2021"
publish = false

[dependencies]
crc32fast = "=1.5.2"
log = "*"
serde_json = "=1.0.151"
