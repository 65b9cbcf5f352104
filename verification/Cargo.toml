[package]
name = "mu"
version = "0.1.0"
edition = "2021"
publish = false

[dependencies]
html-to-markdown-rs = "*"
anyhow = "1"
clap = { version = "4", features = ["derive"] }
