[package]
name = "hanoidb"
version = "0.1.0"
edition = "2021"
publish = false

[dependencies]
crc32fast = "*"
fastbloom = { version = "*", features = ["serde"] }
flate2 = "*"
lz4_flex = "*"
postcard = { version = "*", features = ["use-std"] }
snap = "*"
thiserror = "*"
