[package]
name = "trident"
version = "0.1.0"
edition = "2021"
publish = false

[dependencies]
anyhow = "=1.0.104"
bitpacking = "=0.9.3"
byteorder = "=1.5.0"
clap = { version = "=4.6.7", features = ["derive"] }
integer-encoding = "=4.1.0"
itertools = "=0.15.0"
parquet = { version = "*", default-features = false }
rocksdb = { version = "*", default-features = false }
walkdir = "=2.5.0"
