[package]
name = "spr"
version = "0.1.0"
edition = "2021"
publish = false

[dependencies]
unicode-normalization = "*"
tokio = { version = "1", features = ["process"] }
console = "*"
git2 = "*"
