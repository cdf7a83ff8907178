[package]
name = "gen_dev"
version = "0.1.0"
edition = "2021"
publish = false

[dependencies]
bumpalo = { version = "3.8.0", features = ["collections"] }
