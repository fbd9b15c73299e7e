[package]
name = "autocxx_core"
version = "0.1.0"
edition = "2021"
publish = false

[dependencies]
syn = { version = "*", features = ["full"] }
cc = "*"
tempfile = "*"
