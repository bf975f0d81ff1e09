[package]
name = "find_duplicates"
version = "0.1.0"
edition = "2021"
publish = false

[dependencies]
glob = "0.3"
sha2 = "0.10"
humansize = "2"
