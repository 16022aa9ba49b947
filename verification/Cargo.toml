[package]
name = "liquid_parquet"
version = "0.1.0"
edition = "2021"
publish = false

[dependencies]
arrow = "*"
arrow-schema = "*"
futures = "*"
parquet = { version = "*", default-features = false, features = ["arrow", "async", "experimental"] }
