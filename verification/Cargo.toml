[package]
name = "xio"
version = "0.1.0"
edition = "2021"
publish = false

[dependencies]
fancy-regex = "*"
anyhow = "*"
async-trait = "*"
futures = "*"
log = "*"
tokio = { version = "*", features = ["fs", "io-util", "process", "rt", "sync", "macros", "rt-multi-thread"] }
walkdir = "*"
