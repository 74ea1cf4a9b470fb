[package]
name = "subject_trie"
version = "0.1.0"
edition = "2021"
publish = false

[dependencies]
lru_map = "*"
thiserror = "*"
