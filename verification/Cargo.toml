[package]
name = "docrank"
version = "0.1.0"
edition = "2021"
publish = false

[dependencies]
xml-rs = "0.8"
serde_json = "1"
tiny_http = "0.12"
