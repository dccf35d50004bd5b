[package]
name = "routing"
version = "0.1.0"
edition = "2021"
publish = false

[dependencies]
cached = { version = "0.23", default-features = false }
chrono = "0.4"
conqueue = "*"
tracing = "0.1"
