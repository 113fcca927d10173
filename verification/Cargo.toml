[package]
name = "gofs"
version = "0.2.0"
edition = "2021"
publish = false

[dependencies]
crc32c = "0.6"
siphasher = "1"
uuid = { version = "1", features = ["v4"] }
anyhow = "1"
clap = { version = "4", features = ["derive"] }
fuser = { version = "0.15", default-features = false }
libc = "0.2"
