[package]
name = "analytics_core"
version = "0.1.0"
edition = "2021"
publish = false

[dependencies]
flate2 = "*"
uuid = "*"
axum = "*"
axum-auth = "*"
axum-client-ip = "*"
tokio = { version = "*", features = ["rt-multi-thread", "macros", "time", "sync", "signal", "net"] }
tokio-postgres = "*"
reqwest = { version = "*", default-features = false, features = ["json"] }
serde = { version = "*", features = ["derive"] }
serde_json = "*"
chrono = "*"
envy = "*"
tracing = "*"
tracing-subscriber = "*"
tower = "*"
tower-http = { version = "*", features = ["cors"] }
tower_governor = "*"
futures-util = "*"
maxminddb = "*"
anyhow = "*"
uaparser = "*"
