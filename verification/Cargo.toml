[package]
name = "quart"
version = "0.1.0"
edition = "2021"
publish = false

[dependencies]
lz4_flex = "0.11"
sha2 = "0.10"
xz2 = "0.1"
zstd = "0.13"
