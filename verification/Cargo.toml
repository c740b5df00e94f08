[package]
name = "byte_trie"
version = "0.3.0"
edition = "2021"
publish = false

[dependencies]
rand = "0.7"
serde = "1"
