[package]
name = "dashboard_server"
version = "0.1.0"
edition = "2021"
publish = false

[dependencies]
askama = "*"
axum = "0.8"
dotenv = "0.15"
futures-util = "*"
lazy_static = "1"
serde = { version = "1", features = ["derive"] }
sysinfo = "*"
tokio = { version = "1", features = ["full"] }
tokio-stream = "*"
tower-http = { version = "*", features = ["fs"] }
