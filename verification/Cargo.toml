[package]
name = "watermarking"
version = "0.1.0"
edition = "2021"
publish = false

[dependencies]
gtk4 = { version = "0.9", features = ["v4_10"] }
