[package]
name = "casual_go"
version = "0.1.0"
edition = "2021"
publish = false

[dependencies]
axum = { version = "*", features = ["ws"] }
futures = "*"
handlebars = "*"
http = "*"
rand = "*"
serde = { version = "*", features = ["derive"] }
serde_json = "*"
tokio = { version = "*", features = ["full"] }
tokio-stream = { version = "*", features = ["sync"] }
