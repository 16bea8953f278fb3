[package]
name = "wordlist"
version = "0.1.0"
edition = "2021"
publish = false

[dependencies]
dashmap = "*"
fnv = "*"
unicode-segmentation = "*"
rmp-serde = "*"
