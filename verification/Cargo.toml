[package]
name = "oscar_io"
version = "0.1.0"
edition = "2021"
publish = false

[dependencies]
flate2 = "1"
parquet = { version = "*", default-features = false }

[dev-dependencies]
serde_json = "1"
