[package]
name = "ordinance_compiler"
version = "0.1.0"
edition = "2021"
publish = false

[dependencies]
anyhow = "1"
clap = { version = "4", features = ["derive"] }
crc32fast = "1"
libdeflater = "1"
mimalloc = "*"
quick-xml = "0.37"
rayon = "1"
regex = "1"
rustc-hash = "2"
serde_yaml = "0.9"
sha1 = "*"
smallvec = "1"
time = "0.3"
unicode-normalization = "0.1"
zlib-rs = "*"
