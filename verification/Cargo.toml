[package]
name = "queercat"
version = "0.1.0"
edition = "2021"
publish = false

[dependencies]
unicode-segmentation = "*"
clap = { version = "*", features = ["derive"] }
clap-num = "*"
atty = "*"
multi_reader = "*"
