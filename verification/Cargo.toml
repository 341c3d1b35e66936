[package]
name = "sstable"
version = "0.1.0"
edition = "2021"
publish = false

[dependencies]
anyhow = "1"
byteorder = "1"
serde = { version = "1", features = ["derive"] }
serde_cbor = "0.11"
zstd = "0.13"

[dev-dependencies]
vu128 = "*"
