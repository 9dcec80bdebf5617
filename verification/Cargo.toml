[package]
name = "bigjson"
version = "0.1.0"
edition = "2021"
publish = false

[dependencies]
serde = { version = "*", features = ["derive"] }
serde_json = "*"
clap = { version = "*", features = ["derive"] }
thiserror = "*"
tracing = "*"
tracing-subscriber = { version = "*", features = ["env-filter"] }
parking_lot = "*"
crossbeam = "*"
tokio = { version = "*", features = ["rt-multi-thread", "macros", "sync", "time"] }
tokio-stream = { version = "*", features = ["sync"] }
futures-util = "*"
poem = { version = "*", features = ["websocket", "sse"] }
