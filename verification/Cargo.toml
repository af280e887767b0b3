[package]
name = "musubi"
version = "0.1.0"
edition = "2021"
publish = false

[dependencies]
futures-channel = { version = "0.3", features = ["sink"] }
futures-core = "0.3"
futures-sink = "0.3"
futures-util = { version = "0.3", features = ["sink"] }
serde = { version = "1", features = ["derive"] }
serde_json = "1"
slotmap = "1"
thiserror = "2"
tracing = "0.1"

[dev-dependencies]
futures-executor = "0.3"
