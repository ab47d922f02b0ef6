[package]
name = "sylph"
version = "0.1.0"
edition = "2021"
publish = false

[dependencies]
ahash = "0.8"
rkyv = "0.8"
thiserror = "2"
