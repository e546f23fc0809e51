[package]
name = "tempkeys"
version = "0.1.0"
edition = "2021"
publish = false

[dependencies]
chacha20poly1305 = "*"
clap = { version = "4", features = ["derive"] }
libc = "0.2"
serde_json = "1"
