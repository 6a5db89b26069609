[package]
name = "kvcache"
version = "0.1.0"
edition = "2021"
publish = false

[dependencies]
clap = { version = "*", features = ["derive"] }
env_logger = "*"
mio = { version = "*", features = ["os-poll", "net"] }
promkit = "*"
rand = "*"
