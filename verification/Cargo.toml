[package]
name = "dotconf"
version = "0.1.0"
edition = "2021"
publish = false

[dependencies]
serde_json = "1"
