[package]
name = "axml"
version = "0.1.0"
edition = "2021"
publish = false

[dependencies]
clap = "*"
zip = { version = "*", default-features = false, features = ["deflate"] }
