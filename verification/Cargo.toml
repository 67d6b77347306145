[package]
name = "okm"
version = "0.1.0"
edition = "2021"
publish = false

[dependencies]
arrow = { version = "=60.1.0", default-features = false }
parquet = { version = "=60.1.0", default-features = false, features = ["arrow"] }
fjall = "=3.1.13"
redb = "=4.4.0"
slatedb = { version = "=0.18.0", default-features = false }
tokio = { version = "=1.54.1", features = ["rt"] }
serde = { version = "=1.0.229", features = ["derive"] }
serde_json = "=1.0.154"
tempfile = "=3.27.0"
