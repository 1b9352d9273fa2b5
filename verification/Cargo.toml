[package]
name = "ptconcealer"
version = "0.1.0"
edition = "2021"
publish = false

[dependencies]
clap = { version = "*", features = ["derive"] }
walkdir = "*"
zip = { version = "*", default-features = false, features = ["deflate"] }
