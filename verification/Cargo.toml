[package]
name = "mt_rudp"
version = "0.1.0"
edition = "2021"
publish = false

[dependencies]
byteorder = "1"
tokio = { version = "1", features = ["full"] }
async-trait = "0.1"
pretty-hex = "*"
