[package]
name = "reginae"
version = "0.1.0"
edition = "2021"
publish = false

[dependencies]
radix_trie = "*"
libloading = "*"
crossterm = "*"
tracing-subscriber = { version = "*", features = ["env-filter"] }
