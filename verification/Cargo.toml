[package]
name = "respkv"
version = "0.1.0"
edition = "2021"
publish = false

[dependencies]
num-bigint = "0.4"
mio = { version = "0.8", features = ["os-poll", "net"] }
clap = { version = "4", features = ["derive"] }
