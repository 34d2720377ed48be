[package]
name = "rv_kernel"
version = "0.1.0"
edition = "2021"
publish = false

[dependencies]
spin = "0.9"
talc = { version = "4", default-features = false, features = ["lock_api"] }
