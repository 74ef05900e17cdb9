[package]
name = "yolo_core"
version = "0.1.0"
edition = "2021"
publish = false

[dependencies]
uuid = { version = "=1.27.0", features = ["v4", "serde"] }
chrono = "=0.4.45"
axum = { version = "=0.8.9", features = ["macros"] }
tokio = { version = "=1.53.2", features = ["rt-multi-thread", "macros", "signal", "net"] }
tower = { version = "=0.5.3", features = ["timeout", "util"] }
tower-http = { version = "=0.7.1", features = ["trace"] }
tracing = "=0.1.44"
tracing-subscriber = { version = "=0.3.23", features = ["env-filter"] }
serde = { version = "=1.0.229", features = ["derive"] }
config = "=0.15.27"
serde-aux = "=4.7.0"
anyhow = "=1.0.104"
thiserror = "=2.0.21"
rust_decimal = "=1.43.0"
