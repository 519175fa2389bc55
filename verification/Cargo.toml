[package]
name = "codem8"
version = "0.7.7"
edition = "2021"
publish = false

[dependencies]
xxhash-rust = { version = "0.8", features = ["xxh3"] }
regex = "1"
ignore = "0.4"
rayon = "1"
rust-code-analysis = "*"
