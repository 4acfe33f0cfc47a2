[package]
name = "fhe_linkage"
version = "0.1.0"
edition = "2021"
publish = false

[dependencies]
sha2 = "=0.11.0"
rand = "=0.8.8"
