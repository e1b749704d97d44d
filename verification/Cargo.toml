[package]
name = "cdg_player"
version = "0.1.0"
edition = "2021"
publish = false

[dependencies]
dirs = "=7.0.0"
sevenz-rust2 = "=0.24.2"
zip = { version = "=8.6.0", default-features = false, features = ["deflate"] }
