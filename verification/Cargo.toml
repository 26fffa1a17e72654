[package]
name = "supertable"
version = "0.1.0"
edition = "2021"
publish = false

[dependencies]
arrow = { version = "=60.1.0", default-features = false, features = ["ipc"] }
arrow-array = "=60.1.0"
blake3 = "=1.8.7"
bytes = "=1.12.1"
chrono = { version = "=0.4.45", features = ["serde"] }
futures = "=0.3.34"
object_store = "=0.14.2"
rayon = "=1.12.0"
roaring = "=0.12.0"
serde = { version = "=1.0.229", features = ["derive"] }
serde_json = "=1.0.154"
tempfile = "=3.27.0"
thiserror = "=2.0.21"
tokio = { version = "=1.54.1", features = ["time", "rt", "sync"] }
tracing = "=0.1.44"
uuid = { version = "=1.29.0", features = ["v4"] }
