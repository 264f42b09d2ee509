[package]
name = "greatest"
version = "0.1.0"
edition = "2021"
publish = false

[dependencies]
datafusion = { version = "*", default-features = false }
