[package]
name = "ak47"
version = "0.1.0"
edition = "2021"
publish = false

[dependencies]
jieba-rs = "*"
serde_json = "*"
rfd = "*"
winsafe = { version = "*", features = ["gui"] }
