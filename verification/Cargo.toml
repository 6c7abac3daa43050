[package]
name = "wackdb"
version = "0.1.0"
edition = "2021"
publish = false

[dependencies]
serde = { version = "1", features = ["derive"] }
serde_json = "1"
toml = "0.8"
clap = { version = "4", features = ["derive"] }
colored = "2"
comfy-table = "7"
ctrlc = "3"
hex = "0.4"
axum = "0.7"
tokio = { version = "1", features = ["rt-multi-thread", "net", "macros"] }
tower-http = { version = "0.5", features = ["cors"] }
anyhow = "1"
thiserror = "1"
parking_lot = "0.12"
tempfile = "3"
