[package]
name = "chain_head"
version = "0.1.0"
edition = "2021"
publish = false

[dependencies]
array-bytes = "=6.2.3"
sp-core = { version = "=43.0.0", default-features = false }
