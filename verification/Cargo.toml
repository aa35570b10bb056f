[package]
name = "java_multiversion"
version = "0.1.0"
edition = "2021"
publish = false

[dependencies]
crc-fast = "1"
uuid = "1"
serde_json = "1"
tracing = "0.1"
pumpkin-plugin-api = "0.2"
