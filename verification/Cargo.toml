[package]
name = "manifold"
version = "0.1.0"
edition = "2021"
publish = false

[dependencies]
dashmap = "6"
tokio = { version = "1", features = ["full"] }
axum = { version = "0.7", features = ["ws"] }
serde = { version = "1", features = ["derive"] }
serde_json = "1"
toml = "0.8"
humantime-serde = "1"
prost = "0.13"
jsonwebtoken = "9"
base64 = "0.22"
redis = { version = "0.27", features = ["tokio-comp", "connection-manager"] }
futures = "0.3"
tracing = "0.1"
tracing-subscriber = { version = "0.3", features = ["env-filter", "json"] }
reqwest = { version = "0.12", default-features = false, features = ["json"] }
tower-http = { version = "0.6", features = ["fs"] }
async-stream = "0.3"
tokio-stream = "0.1"
tokio-tungstenite = "0.26"
clap = { version = "4", features = ["derive"] }
hdrhistogram = "7"
anyhow = "1"
async-trait = "0.1"
thiserror = "1"
