[package]
name = "sticker_extract"
version = "0.1.0"
edition = "2021"
publish = false

[dependencies]
anyhow = "1"
dirs = "*"
hex = "0.4"
reqwest = { version = "0.12", default-features = false, features = ["blocking"] }
xml-rs = "0.8"
