[package]
name = "docrag"
version = "0.1.0"
edition = "2021"
publish = false

[dependencies]
anyhow = "*"
axum = "=0.8.9"
axum-streams = { version = "=0.30.0", features = ["text"] }
futures = "*"
openai = "=1.1.1"
serde = { version = "*", features = ["derive"] }
tokio = { version = "*", features = ["full"] }
tokio-stream = "*"
tower-http = { version = "*", features = ["fs"] }
