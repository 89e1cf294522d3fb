[package]
name = "sdset"
version = "0.1.0"
edition = "2021"
publish = false

[dependencies]
regex = "*"
lazy_static = "*"
serde = { version = "*", features = ["derive"] }
