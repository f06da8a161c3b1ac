[package]
name = "glslwatch"
version = "0.1.0"
edition = "2021"
publish = false

[dependencies]
failure = { version = "=0.1.8", default-features = false, features = ["std"] }
rpds = "=1.2.1"

[dev-dependencies]
regex = "=1.13.1"
