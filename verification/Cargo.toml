[package]
name = "repomon"
version = "0.1.0"
edition = "2021"
publish = false

[dependencies]
uuid = { version = "*", features = ["v4", "v5"] }
git2 = { version = "*", default-features = false }
clap = "*"
