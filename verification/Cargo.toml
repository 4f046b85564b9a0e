[package]
name = "uranker"
version = "0.1.0"
edition = "2021"
publish = false

[dependencies]
serde_json = "1"
anyhow = "1"
clap = "2"
log = "0.4"
threadpool = "1"
