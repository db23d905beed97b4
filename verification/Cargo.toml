[package]
name = "xtal_core"
version = "0.1.0"
edition = "2021"
publish = false

[dependencies]
blake3 = "=1.8.7"
lz4 = "=1.28.1"
tokio = { version = "=1.53.2", features = ["full"] }
parking_lot = "=0.12.5"
config = "=0.11.0"
thiserror = "=1.0.69"

[dev-dependencies]
tempfile = "=3.27.0"
