[package]
name = "riptidekv"
version = "0.1.0"
edition = "2021"
publish = false

[dependencies]
anyhow = "1"
byteorder = "1"
crc32fast = "1"
thiserror = "1"
