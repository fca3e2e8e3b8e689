[package]
name = "acestream_audio"
version = "0.1.0"
edition = "2021"
publish = false

[dependencies]
bytes = "1"
libc = "0.2"
serde_json = "1"
tiny_http = "0.12"
