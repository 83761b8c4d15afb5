[package]
name = "clob"
version = "0.1.0"
edition = "2021"
publish = false

[dependencies]
axum = "0.8"
serde = { version = "1", features = ["derive"] }
tokio = { version = "1", features = ["rt-multi-thread", "net", "macros", "sync"] }
tower-http = { version = "0.6", features = ["cors"] }
