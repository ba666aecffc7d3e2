[package]
name = "fileslug"
version = "0.1.0"
edition = "2021"
publish = false

[dependencies]
any_ascii = "*"
clap = { version = "4", features = ["derive"] }
walkdir = "2"
