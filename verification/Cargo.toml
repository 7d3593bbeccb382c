[package]
name = "fast_compress"
version = "0.1.0"
edition = "2021"
publish = false

[dependencies]
fastset = "*"
clap = { version = "*", features = ["derive"] }
