[package]
name = "setback"
version = "0.1.0"
edition = "2021"
publish = false

[dependencies]
critical-section = "=1.2.0"

[dev-dependencies]
critical-section = { version = "=1.2.0", features = ["std"] }
