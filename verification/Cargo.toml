[package]
name = "haremal_ctrl"
version = "0.1.0"
edition = "2021"
publish = false

[dependencies]
locale-codes = "*"
rfd = "0.15"
tokio = { version = "1", features = ["process", "rt"] }
