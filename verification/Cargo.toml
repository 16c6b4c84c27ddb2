[package]
name = "exifmv"
version = "0.5.3"
edition = "2021"
publish = false

[dependencies]
anyhow = "1"
indicatif = "*"
log = "0.4"
trash = "*"
walkdir = "2"
xxhash-rust = { version = "*", features = ["xxh3"] }
