[package]
name = "pruning_radix_trie"
version = "0.1.0"
edition = "2021"
publish = false

[dependencies]
compact_str = "*"
itertools = "*"
serde = { version = "*", features = ["derive"] }
