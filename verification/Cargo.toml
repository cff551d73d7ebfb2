[package]
name = "th06nc_data"
version = "0.1.0"
edition = "2021"
publish = false

[dependencies]
byteorder = "1"
crc32fast = "1"
anyhow = "1"
clap = { version = "4", features = ["derive"] }
getrandom = "0.3"
walkdir = "2"
zstd = "0.13"
