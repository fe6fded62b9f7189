[package]
name = "reso"
version = "0.1.0"
edition = "2021"
publish = false

[dependencies]
bimap = "0.6"
clap = { version = "3", default-features = false, features = ["std"] }
image = { version = "0.24", default-features = false, features = ["png"] }
