[package]
name = "redis_value"
version = "0.1.0"
edition = "2021"
publish = false

[dependencies]
redis = { version = "0.24", default-features = false }
