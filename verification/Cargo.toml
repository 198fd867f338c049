[package]
name = "package-parser"
version = "0.1.0"
edition = "2021"
publish = false

[dependencies]
rand = "0.9"
serialport = { version = "4", default-features = false }
