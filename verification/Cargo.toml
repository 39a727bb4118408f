[package]
name = "joedlna"
version = "0.1.0"
edition = "2021"
publish = false

[dependencies]
quick-xml = "0.37"
uuid = { version = "1", features = ["v4", "v5"] }
axum = "0.8"
bytes = "1"
clap = { version = "4", features = ["derive"] }
notify = "8"
serde = { version = "1", features = ["derive"] }
socket2 = "0.5"
thiserror = "2"
tokio = { version = "1", features = ["full"] }
tokio-util = { version = "0.7", features = ["io"] }
toml = "0.8"
tracing = "0.1"
tracing-subscriber = { version = "0.3", features = ["env-filter", "json"] }
