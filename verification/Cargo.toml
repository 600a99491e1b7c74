[package]
name = "shengji_mechanics"
version = "0.1.0"
edition = "2021"
publish = false

[dependencies]
itertools = "0.10"
lazy_static = "1.4"
schemars = "0.8"
serde = { version = "1.0", features = ["derive"] }
